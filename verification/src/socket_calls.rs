//! Socket system calls: what each does to the socket state, and what it needs
//! of the network coordinators.
//!
//! A call either returns at once or asks for one [`SocketStep`]. The embedding
//! performs the step and hands the outcome to the matching `finish_*` function;
//! where it has to wait for the network it feeds each [`NetEvent`] to the
//! `*_event` functions.
//!
//! A guest can open IPv4 streams. Datagram and Unix sockets are not supported yet:
//! `socket` refuses them, and the other calls meet one only if the embedding made
//! it, with `SocketState::set_kind`.

use base64::engine::general_purpose::STANDARD;
use base64::Engine;
use vstd::prelude::*;

use crate::bytes::{
    addr, addr_of, guest_range, in_range, le_bytes, lemma_le_bytes_len, lemma_word_reads_back,
    signed_at, splice, word_at, write_at, write_u32,
};
use crate::socket::{
    drained, law_drain_keeps_bytes, SockKind, SocketState, SocketView, AF_INET, EAGAIN, EBADF, ECONNREFUSED, EINVAL,
    ENOTSUP, EPERM, SOCK_STREAM, SOCK_TYPE_MASK,
};
use crate::socket_abi::{
    apart, buffer_fits, gather_iov, gathered, iov_capacity, law_capacity_is_gathered_len,
    law_dotted_round_trip, law_gather_needs_bounds, law_gather_reads_back_scatter,
    law_sockaddr_fields, law_sun_path_is_read, parse_sockaddr_in, parse_sockaddr_un, scatter_iov,
    scattered, size_at, sockaddr_in, sockaddr_in_at, sockaddr_un_at, total_len, write_sockaddr_in,
    write_sockaddr_un_empty,
};
use crate::text::{opt_text, utf8_lossy};

verus! {

/// How long a call waits for the network, in seconds.
pub const WAIT_SECS: u64 = 30;

/// Which network services the embedding granted to a run.
#[derive(Debug, Clone, Copy, PartialEq, Eq, Structural)]
pub struct Services {
    /// The TCP coordinator.
    pub net: bool,
    /// The policy that says which hosts and ports may be used.
    pub policy: bool,
    /// The UDP coordinator.
    pub dgram: bool,
    /// The Unix-domain coordinator.
    pub unix: bool,
}

/// The coordinator that a stream goes through.
#[derive(Debug, Clone, Copy, PartialEq, Eq, Structural)]
pub enum Link {
    Tcp,
    Unix,
}

/// What a socket call needs the embedding for.
#[derive(Debug)]
pub enum SocketStep {
    /// Nothing: the guest gets this value.
    Return(i32),
    /// Open a TCP connection, if the policy allows it.
    ConnectTcp { host: String, port: u16 },
    /// Open a Unix stream connection.
    ConnectUnix { path: String },
    /// Ask the policy whether the port may be listened on.
    BindTcp { port: u16 },
    /// Bind a UDP socket.
    BindUdp { host: String, port: u16 },
    /// Bind a Unix datagram socket.
    BindUnix { path: String },
    /// Listen on a TCP port, if the policy allows it.
    ListenTcp { port: u16 },
    /// Listen on a Unix path.
    ListenUnix { path: String },
    /// Wait for a connection to the server.
    Accept { link: Link, server: i32 },
    /// Write to the connection; the guest gets `count`.
    Write { link: Link, conn: i32, data: Vec<u8>, count: i32 },
    /// Wait for up to `max` bytes on the connection.
    Receive { link: Link, conn: i32, max: usize },
    /// Wait for a UDP datagram of which up to `max` bytes are read.
    ReceiveUdp { id: i32, max: usize },
    /// Wait for a Unix datagram of which up to `max` bytes are read.
    ReceiveUnix { id: i32, max: usize },
    /// Send a UDP datagram; the guest gets the coordinator's result.
    SendUdp { id: i32, host: String, port: u16, data: Vec<u8> },
    /// Send a Unix datagram; the guest gets the coordinator's result.
    SendUnix { id: i32, path: String, data: Vec<u8> },
    /// Tear down the connection; the guest gets 0.
    Destroy { link: Link, conn: i32 },
}

/// What a [`SocketStep`] asks for.
#[verifier::ext_equal]
pub enum StepView {
    Return(i32),
    ConnectTcp(Seq<char>, u16),
    ConnectUnix(Seq<char>),
    BindTcp(u16),
    BindUdp(Seq<char>, u16),
    BindUnix(Seq<char>),
    ListenTcp(u16),
    ListenUnix(Seq<char>),
    Accept(Link, i32),
    Write(Link, i32, Seq<u8>, i32),
    Receive(Link, i32, usize),
    ReceiveUdp(i32, usize),
    ReceiveUnix(i32, usize),
    SendUdp(i32, Seq<char>, u16, Seq<u8>),
    SendUnix(i32, Seq<char>, Seq<u8>),
    Destroy(Link, i32),
}

impl View for SocketStep {
    type V = StepView;

    open spec fn view(&self) -> StepView {
        match *self {
            SocketStep::Return(v) => StepView::Return(v),
            SocketStep::ConnectTcp { host, port } => StepView::ConnectTcp(host@, port),
            SocketStep::ConnectUnix { path } => StepView::ConnectUnix(path@),
            SocketStep::BindTcp { port } => StepView::BindTcp(port),
            SocketStep::BindUdp { host, port } => StepView::BindUdp(host@, port),
            SocketStep::BindUnix { path } => StepView::BindUnix(path@),
            SocketStep::ListenTcp { port } => StepView::ListenTcp(port),
            SocketStep::ListenUnix { path } => StepView::ListenUnix(path@),
            SocketStep::Accept { link, server } => StepView::Accept(link, server),
            SocketStep::Write { link, conn, data, count } => StepView::Write(
                link,
                conn,
                data@,
                count,
            ),
            SocketStep::Receive { link, conn, max } => StepView::Receive(link, conn, max),
            SocketStep::ReceiveUdp { id, max } => StepView::ReceiveUdp(id, max),
            SocketStep::ReceiveUnix { id, max } => StepView::ReceiveUnix(id, max),
            SocketStep::SendUdp { id, host, port, data } => StepView::SendUdp(
                id,
                host@,
                port,
                data@,
            ),
            SocketStep::SendUnix { id, path, data } => StepView::SendUnix(id, path@, data@),
            SocketStep::Destroy { link, conn } => StepView::Destroy(link, conn),
        }
    }
}

/// The address that an optional pair of host and port holds.
pub open spec fn opt_peer(p: Option<(String, u16)>) -> Option<(Seq<char>, u16)> {
    match p {
        Some(hp) => Some((hp.0@, hp.1)),
        None => None,
    }
}

/// The path of the Unix socket address at `at`.
pub open spec fn unix_path_at(mem: Seq<u8>, at: int) -> Option<Seq<char>> {
    match sockaddr_un_at(mem, at) {
        Some(bytes) => Some(utf8_lossy(bytes)),
        None => None,
    }
}

/// What `m` holds for `fd`, or `EBADF`.
pub open spec fn id_of(m: Map<i32, i32>, fd: i32) -> i32 {
    if m.contains_key(fd) {
        m[fd]
    } else {
        EBADF
    }
}

fn id_or_ebadf(id: Option<i32>) -> (r: i32)
    ensures
        r == match id {
            Some(v) => v,
            None => EBADF,
        },
{
    match id {
        Some(v) => v,
        None => EBADF,
    }
}

/// The kind of socket that `domain` and `sock_type` ask for, flags in the type
/// aside. Only IPv4 streams can be asked for: `SOCK_DGRAM` and `AF_UNIX` are not
/// supported yet.
pub open spec fn kind_for(domain: i32, sock_type: i32) -> Option<SockKind> {
    if domain == AF_INET && sock_type & SOCK_TYPE_MASK == SOCK_STREAM {
        Some(SockKind::TcpStream)
    } else {
        None
    }
}

/// Making a socket: the sockets afterwards, and the descriptor or the errno.
pub open spec fn socket_made(
    s: SocketView,
    services: Services,
    domain: i32,
    sock_type: i32,
) -> (SocketView, i32) {
    if !services.net {
        (s, EPERM)
    } else {
        match kind_for(domain, sock_type) {
            None => (s, ENOTSUP),
            Some(kind) => (s.with_socket(kind), s.next_fd),
        }
    }
}

/// A guest with the network that asks for an IPv4 stream gets a new socket, a stream that
/// is not connected yet; the sockets that were there are as they were. Without the
/// network it is `EPERM`, and any other socket `ENOTSUP`.
pub proof fn law_socket_is_made(
    s: SocketView,
    services: Services,
    domain: i32,
    sock_type: i32,
    other: i32,
)
    requires
        other != s.next_fd,
    ensures
        ({
            let (t, fd) = socket_made(s, services, domain, sock_type);
            let stream = domain == 2 && sock_type as int % 16 == 1;
            &&& !services.net ==> fd == -1 && t == s
            &&& services.net && !stream ==> fd == -95 && t == s
            &&& services.net && stream ==> {
                &&& fd == s.next_fd
                &&& t.kind(fd) == Some(SockKind::TcpStream)
                &&& t.next_fd != fd
                &&& t.kind(other) == s.kind(other)
                &&& t.conns == s.conns
                &&& t.servers == s.servers
            }
        }),
{
    law_only_streams_are_made(domain, sock_type);
}

/// `socket`: a new descriptor of the kind asked for. `EPERM` without network,
/// `ENOTSUP` and no descriptor for anything but an IPv4 stream.
pub fn syscall_socket(
    state: &mut SocketState,
    services: Services,
    domain: i32,
    sock_type: i32,
) -> (r: i32)
    ensures
        (final(state)@, r) == socket_made(old(state)@, services, domain, sock_type),
{
    if !services.net {
        return EPERM;
    }
    if domain != AF_INET || sock_type & SOCK_TYPE_MASK != SOCK_STREAM {
        return ENOTSUP;
    }
    let fd: i32 = state.alloc_fd();
    state.set_kind(fd, SockKind::TcpStream);
    fd
}

/// What connecting the socket `fd` does, given the address that the guest passed
/// read as an IPv4 and as a Unix address. A descriptor of no recorded kind is
/// taken for TCP. Datagram sockets only note their default peer.
pub open spec fn connecting(
    s: SocketView,
    services: Services,
    fd: i32,
    inet: Option<(Seq<char>, u16)>,
    unix: Option<Seq<char>>,
) -> (SocketView, StepView) {
    match s.kind(fd) {
        Some(SockKind::UdpDgram) => match inet {
            None => (s, StepView::Return(EINVAL)),
            Some(peer) => (
                SocketView { udp_peers: s.udp_peers.insert(fd, peer), ..s },
                StepView::Return(0),
            ),
        },
        Some(SockKind::UnixStream) => if !services.unix {
            (s, StepView::Return(EPERM))
        } else {
            match unix {
                None => (s, StepView::Return(EINVAL)),
                Some(path) => (s, StepView::ConnectUnix(path)),
            }
        },
        Some(SockKind::UnixDgram) => match unix {
            None => (s, StepView::Return(EINVAL)),
            Some(path) => (
                SocketView { unix_peers: s.unix_peers.insert(fd, path), ..s },
                StepView::Return(0),
            ),
        },
        _ => if !services.net || !services.policy {
            (s, StepView::Return(EPERM))
        } else {
            match inet {
                None => (s, StepView::Return(EINVAL)),
                Some((host, port)) => (s, StepView::ConnectTcp(host, port)),
            }
        },
    }
}

/// `connect` with the address already read.
pub fn connect_to(
    state: &mut SocketState,
    services: Services,
    fd: i32,
    inet: Option<(String, u16)>,
    unix: Option<String>,
) -> (r: SocketStep)
    ensures
        (final(state)@, r@) == connecting(
            old(state)@,
            services,
            fd,
            opt_peer(inet),
            opt_text(unix),
        ),
{
    match state.fd_kind(fd) {
        Some(SockKind::UdpDgram) => match inet {
            None => SocketStep::Return(EINVAL),
            Some((host, port)) => {
                state.set_udp_peer(fd, host, port);
                SocketStep::Return(0)
            },
        },
        Some(SockKind::UnixStream) => {
            if !services.unix {
                return SocketStep::Return(EPERM);
            }
            match unix {
                None => SocketStep::Return(EINVAL),
                Some(path) => SocketStep::ConnectUnix { path },
            }
        },
        Some(SockKind::UnixDgram) => match unix {
            None => SocketStep::Return(EINVAL),
            Some(path) => {
                state.set_unix_peer(fd, path);
                SocketStep::Return(0)
            },
        },
        _ => {
            if !services.net || !services.policy {
                return SocketStep::Return(EPERM);
            }
            match inet {
                None => SocketStep::Return(EINVAL),
                Some((host, port)) => SocketStep::ConnectTcp { host, port },
            }
        },
    }
}

/// `connect`: connect the socket to the address at `addr_ptr`.
pub fn syscall_connect(
    state: &mut SocketState,
    services: Services,
    mem: &[u8],
    fd: i32,
    addr_ptr: i32,
) -> (r: SocketStep)
    ensures
        (final(state)@, r@) == connecting(
            old(state)@,
            services,
            fd,
            sockaddr_in_at(mem@, addr(addr_ptr)),
            unix_path_at(mem@, addr(addr_ptr)),
        ),
{
    let at: usize = addr_of(addr_ptr);
    let inet = parse_sockaddr_in(mem, at);
    let unix = parse_sockaddr_un(mem, at);
    connect_to(state, services, fd, inet, unix)
}

/// The sockets after `fd` got the connection `conn`.
pub open spec fn connected(s: SocketView, fd: i32, conn: i32) -> SocketView {
    SocketView { conns: s.conns.insert(fd, conn), ..s }
}

/// Record the outcome of opening a connection for `fd`: `None` if the policy
/// denied it, a negative id if it could not be opened. Gives the connection to
/// wait for, or the errno.
pub fn finish_connect(state: &mut SocketState, fd: i32, opened: Option<i32>) -> (r: Result<
    i32,
    i32,
>)
    ensures
        match opened {
            None => r == Err::<i32, i32>(EPERM) && final(state)@ == old(state)@,
            Some(conn) => if conn < 0 {
                r == Err::<i32, i32>(ECONNREFUSED) && final(state)@ == old(state)@
            } else {
                r == Ok::<i32, i32>(conn) && final(state)@ == connected(old(state)@, fd, conn)
            },
        },
{
    match opened {
        None => Err(EPERM),
        Some(conn) => {
            if conn < 0 {
                return Err(ECONNREFUSED);
            }
            state.set_conn(fd, conn);
            Ok(conn)
        },
    }
}

/// What a coordinator reports.
#[derive(Debug)]
pub enum NetEvent {
    /// A connection was established.
    Connect { conn: i32 },
    /// A connection failed.
    Error { conn: i32 },
    /// A connection was closed.
    Close { conn: i32 },
    /// The peer will send no more.
    End { conn: i32 },
    /// Bytes arrived, in base64.
    Data { conn: i32, payload: String },
    /// A server accepted a connection.
    Connection { server: i32, conn: i32 },
    /// Anything else.
    Other,
}

/// The result of `connect` that an event brings, if it does.
pub open spec fn connect_went_on(conn: i32, event: Option<NetEvent>) -> Option<i32> {
    match event {
        None => Some(ECONNREFUSED),
        Some(NetEvent::Connect { conn: c }) if c == conn => Some(0i32),
        Some(NetEvent::Error { conn: c }) if c == conn => Some(ECONNREFUSED),
        Some(NetEvent::Close { conn: c }) if c == conn => Some(EBADF),
        Some(_) => None,
    }
}

/// `connect` succeeds exactly when its own connection is established. It fails when that
/// connection fails or is closed, or when time runs out; what happens to other connections
/// does not end it.
pub proof fn law_connect_waits_for_its_own(conn: i32, event: NetEvent)
    ensures
        connect_went_on(conn, None) matches Some(e) && e == -111,
        connect_went_on(conn, Some(event)) == Some(0i32) <==> (event matches NetEvent::Connect {
            conn: c,
        } && c == conn),
        (event matches NetEvent::Error { conn: c } && c == conn) ==> (connect_went_on(
            conn,
            Some(event),
        ) matches Some(e) && e == -111),
        (event matches NetEvent::Close { conn: c } && c == conn) ==> (connect_went_on(
            conn,
            Some(event),
        ) matches Some(e) && e == -9),
        (event matches NetEvent::Connect { conn: c } && c != conn) || (event matches NetEvent::Error {
            conn: c,
        } && c != conn) || (event matches NetEvent::Close { conn: c } && c != conn) || event is Data
            || event is End || event is Connection || event is Other ==> connect_went_on(
            conn,
            Some(event),
        ) is None,
{
}

/// How waiting for the connection `conn` goes on after an event: the result of
/// `connect`, or `None` to go on waiting. No event means that time ran out.
pub fn connect_event(conn: i32, event: &Option<NetEvent>) -> (r: Option<i32>)
    ensures
        r == connect_went_on(conn, *event),
{
    match event {
        None => Some(ECONNREFUSED),
        Some(NetEvent::Connect { conn: c }) => if *c == conn {
            Some(0)
        } else {
            None
        },
        Some(NetEvent::Error { conn: c }) => if *c == conn {
            Some(ECONNREFUSED)
        } else {
            None
        },
        Some(NetEvent::Close { conn: c }) => if *c == conn {
            Some(EBADF)
        } else {
            None
        },
        Some(_) => None,
    }
}

/// What binding the socket `fd` does, given the address that the guest passed
/// read as an IPv4 and as a Unix address.
pub open spec fn binding(
    s: SocketView,
    services: Services,
    fd: i32,
    inet: Option<(Seq<char>, u16)>,
    unix: Option<Seq<char>>,
) -> (SocketView, StepView) {
    match s.kind(fd) {
        Some(SockKind::UdpDgram) => if !services.dgram {
            (s, StepView::Return(EPERM))
        } else {
            match inet {
                None => (s, StepView::Return(EINVAL)),
                Some((host, port)) => (s, StepView::BindUdp(host, port)),
            }
        },
        Some(SockKind::UnixStream) => match unix {
            None => (s, StepView::Return(EINVAL)),
            Some(path) => (
                SocketView { unix_paths: s.unix_paths.insert(fd, path), ..s },
                StepView::Return(0),
            ),
        },
        Some(SockKind::UnixDgram) => if !services.unix {
            (s, StepView::Return(EPERM))
        } else {
            match unix {
                None => (s, StepView::Return(EINVAL)),
                Some(path) => (s, StepView::BindUnix(path)),
            }
        },
        _ => if !services.policy {
            (s, StepView::Return(EPERM))
        } else {
            match inet {
                None => (s, StepView::Return(EINVAL)),
                Some((_, port)) => (s, StepView::BindTcp(port)),
            }
        },
    }
}

/// `bind` with the address already read.
pub fn bind_to(
    state: &mut SocketState,
    services: Services,
    fd: i32,
    inet: Option<(String, u16)>,
    unix: Option<String>,
) -> (r: SocketStep)
    ensures
        (final(state)@, r@) == binding(
            old(state)@,
            services,
            fd,
            opt_peer(inet),
            opt_text(unix),
        ),
{
    match state.fd_kind(fd) {
        Some(SockKind::UdpDgram) => {
            if !services.dgram {
                return SocketStep::Return(EPERM);
            }
            match inet {
                None => SocketStep::Return(EINVAL),
                Some((host, port)) => SocketStep::BindUdp { host, port },
            }
        },
        Some(SockKind::UnixStream) => match unix {
            None => SocketStep::Return(EINVAL),
            Some(path) => {
                state.set_unix_path(fd, path);
                SocketStep::Return(0)
            },
        },
        Some(SockKind::UnixDgram) => {
            if !services.unix {
                return SocketStep::Return(EPERM);
            }
            match unix {
                None => SocketStep::Return(EINVAL),
                Some(path) => SocketStep::BindUnix { path },
            }
        },
        _ => {
            if !services.policy {
                return SocketStep::Return(EPERM);
            }
            match inet {
                None => SocketStep::Return(EINVAL),
                Some((_, port)) => SocketStep::BindTcp { port },
            }
        },
    }
}

/// `bind`: bind the socket to the address at `addr_ptr`.
pub fn syscall_bind(
    state: &mut SocketState,
    services: Services,
    mem: &[u8],
    fd: i32,
    addr_ptr: i32,
) -> (r: SocketStep)
    ensures
        (final(state)@, r@) == binding(
            old(state)@,
            services,
            fd,
            sockaddr_in_at(mem@, addr(addr_ptr)),
            unix_path_at(mem@, addr(addr_ptr)),
        ),
{
    let at: usize = addr_of(addr_ptr);
    let inet = parse_sockaddr_in(mem, at);
    let unix = parse_sockaddr_un(mem, at);
    bind_to(state, services, fd, inet, unix)
}

/// The sockets after the TCP socket `fd` was bound to a port.
pub open spec fn bound_tcp(s: SocketView, fd: i32, port: u16) -> SocketView {
    SocketView { servers: s.servers.insert(fd, (-port) as i32), ..s }
}

/// The sockets after the UDP socket `fd` was bound under an id.
pub open spec fn bound_udp(s: SocketView, fd: i32, id: i32) -> SocketView {
    SocketView { udp_ids: s.udp_ids.insert(fd, id), ..s }
}

/// The sockets after the Unix datagram socket `fd` was bound under an id.
pub open spec fn bound_unix(s: SocketView, fd: i32, id: i32) -> SocketView {
    SocketView { unix_ids: s.unix_ids.insert(fd, id), ..s }
}

/// The sockets after `fd` began to listen as a server.
pub open spec fn serving(s: SocketView, fd: i32, server: i32) -> SocketView {
    SocketView { servers: s.servers.insert(fd, server), ..s }
}

/// A datagram socket that is bound sends and receives under its id; other sockets are as
/// they were.
pub proof fn law_bound_datagrams_use_id(
    s: SocketView,
    services: Services,
    fd: i32,
    id: i32,
    host: Seq<char>,
    port: u16,
    path: Seq<char>,
    data: Seq<u8>,
    len: i32,
    other: i32,
)
    requires
        services.dgram,
        services.unix,
        id >= 0,
        0 <= len,
        other != fd,
    ensures
        s.kind(fd) == Some(SockKind::UdpDgram) ==> {
            let t = bound_udp(s, fd, id);
            &&& sending(t, services, fd, data, true, Some((host, port)), None) == StepView::SendUdp(
                id,
                host,
                port,
                data,
            )
            &&& receiving(t, services, fd, len) == StepView::ReceiveUdp(id, len as usize)
            &&& receiving(t, services, other, len) == receiving(s, services, other, len)
        },
        s.kind(fd) == Some(SockKind::UnixDgram) ==> {
            let t = bound_unix(s, fd, id);
            &&& sending(t, services, fd, data, true, None, Some(path)) == StepView::SendUnix(
                id,
                path,
                data,
            )
            &&& receiving(t, services, fd, len) == StepView::ReceiveUnix(id, len as usize)
            &&& receiving(t, services, other, len) == receiving(s, services, other, len)
        },
{
    assert(len as u32 == len);
}

/// Complete the `bind` of a TCP socket: `EPERM` if the policy does not allow the
/// port. Until `listen` minus the port stands where the server's id will.
pub fn finish_bind_tcp(state: &mut SocketState, fd: i32, port: u16, allowed: bool) -> (r: i32)
    ensures
        if allowed {
            r == 0 && final(state)@ == bound_tcp(old(state)@, fd, port)
        } else {
            r == EPERM && final(state)@ == old(state)@
        },
{
    if !allowed {
        return EPERM;
    }
    state.set_server(fd, -(port as i32));
    0
}

/// Complete the `bind` of a UDP socket; a negative id means that it failed.
pub fn finish_bind_udp(state: &mut SocketState, fd: i32, id: i32) -> (r: i32)
    ensures
        if id < 0 {
            r == EINVAL && final(state)@ == old(state)@
        } else {
            r == 0 && final(state)@ == bound_udp(old(state)@, fd, id)
        },
{
    if id < 0 {
        return EINVAL;
    }
    state.set_udp(fd, id);
    0
}

/// Complete the `bind` of a Unix datagram socket; a negative id means that it
/// failed.
pub fn finish_bind_unix(state: &mut SocketState, fd: i32, id: i32) -> (r: i32)
    ensures
        if id < 0 {
            r == EINVAL && final(state)@ == old(state)@
        } else {
            r == 0 && final(state)@ == bound_unix(old(state)@, fd, id)
        },
{
    if id < 0 {
        return EINVAL;
    }
    state.set_unix_dgram(fd, id);
    0
}

/// What listening on the socket `fd` does. A Unix stream socket needs a path to
/// be bound to; any other one is taken for TCP and needs a port. Listening again
/// changes nothing. A socket bound to port 0 counts as listening, and one bound to
/// port 9 as none, since minus 9 is `EBADF`.
pub open spec fn listening(s: SocketView, services: Services, fd: i32) -> StepView {
    if s.kind(fd) == Some(SockKind::UnixStream) {
        if !services.unix {
            StepView::Return(EPERM)
        } else if !s.unix_paths.contains_key(fd) || s.unix_paths[fd].len() == 0 {
            StepView::Return(EINVAL)
        } else {
            StepView::ListenUnix(s.unix_paths[fd])
        }
    } else if !services.net || !services.policy {
        StepView::Return(EPERM)
    } else {
        let bound = id_of(s.servers, fd);
        if bound == EBADF {
            StepView::Return(EBADF)
        } else if bound >= 0 {
            StepView::Return(0)
        } else {
            StepView::ListenTcp((-bound) as u16)
        }
    }
}

/// `listen`: start to accept connections on a bound socket.
pub fn syscall_listen(state: &SocketState, services: Services, fd: i32) -> (r: SocketStep)
    ensures
        r@ == listening(state@, services, fd),
{
    match state.fd_kind(fd) {
        Some(SockKind::UnixStream) => {
            if !services.unix {
                return SocketStep::Return(EPERM);
            }
            match state.unix_path_of(fd) {
                None => SocketStep::Return(EINVAL),
                Some(path) => {
                    let cs = crate::text::chars_of(path.as_str());
                    if cs.len() == 0 {
                        SocketStep::Return(EINVAL)
                    } else {
                        SocketStep::ListenUnix { path }
                    }
                },
            }
        },
        _ => {
            if !services.net || !services.policy {
                return SocketStep::Return(EPERM);
            }
            let bound: i32 = id_or_ebadf(state.server_of(fd));
            if bound == EBADF {
                SocketStep::Return(EBADF)
            } else if bound >= 0 {
                SocketStep::Return(0)
            } else {
                let port: i64 = -(bound as i64);
                SocketStep::ListenTcp { port: port as u16 }
            }
        },
    }
}

/// Complete a `listen`: `None` if the policy denied it, a negative id if it
/// failed.
pub fn finish_listen(state: &mut SocketState, fd: i32, opened: Option<i32>) -> (r: i32)
    ensures
        match opened {
            None => r == EPERM && final(state)@ == old(state)@,
            Some(server) => if server < 0 {
                r == EINVAL && final(state)@ == old(state)@
            } else {
                r == 0 && final(state)@ == serving(old(state)@, fd, server)
            },
        },
{
    match opened {
        None => EPERM,
        Some(server) => {
            if server < 0 {
                return EINVAL;
            }
            state.set_server(fd, server);
            0
        },
    }
}

/// A port that was bound is the port that is listened on; until then nothing can
/// be accepted. This leaves out port 0, which counts as listened on, and port 9,
/// which is refused.
pub proof fn law_bind_then_listen(s: SocketView, services: Services, fd: i32, port: u16)
    requires
        services.net,
        services.policy,
        s.kind(fd) != Some(SockKind::UnixStream),
        port != 0,
        port != 9,
    ensures
        ({
            let bound = bound_tcp(s, fd, port);
            &&& listening(bound, services, fd) == StepView::ListenTcp(port)
            &&& accepting(bound, services, fd) == StepView::Return(EBADF)
        }),
{
}

/// The link and server that `accept4` on `fd` waits for.
pub open spec fn accepting(s: SocketView, services: Services, fd: i32) -> StepView {
    let link = if s.kind(fd) == Some(SockKind::UnixStream) {
        Link::Unix
    } else {
        Link::Tcp
    };
    if (link == Link::Unix && !services.unix) || (link == Link::Tcp && !services.net) {
        StepView::Return(EPERM)
    } else if id_of(s.servers, fd) < 0 {
        StepView::Return(EBADF)
    } else {
        StepView::Accept(link, id_of(s.servers, fd))
    }
}

/// The link that a stream socket goes through.
fn link_of(state: &SocketState, fd: i32) -> (r: Link)
    ensures
        r == if state@.kind(fd) == Some(SockKind::UnixStream) {
            Link::Unix
        } else {
            Link::Tcp
        },
{
    match state.fd_kind(fd) {
        Some(SockKind::UnixStream) => Link::Unix,
        _ => Link::Tcp,
    }
}

/// Whether the coordinator of a link was granted.
pub open spec fn granted(services: Services, link: Link) -> bool {
    match link {
        Link::Tcp => services.net,
        Link::Unix => services.unix,
    }
}

fn is_granted(services: Services, link: Link) -> (r: bool)
    ensures
        r == granted(services, link),
{
    match link {
        Link::Tcp => services.net,
        Link::Unix => services.unix,
    }
}

/// `accept4`: wait for a connection to a listening socket.
pub fn syscall_accept4(state: &SocketState, services: Services, fd: i32) -> (r: SocketStep)
    ensures
        r@ == accepting(state@, services, fd),
{
    let link = link_of(state, fd);
    if !is_granted(services, link) {
        return SocketStep::Return(EPERM);
    }
    let server: i32 = id_or_ebadf(state.server_of(fd));
    if server < 0 {
        return SocketStep::Return(EBADF);
    }
    SocketStep::Accept { link, server }
}

/// What decoding a text as padded base64 of the standard alphabet gives.
pub uninterp spec fn base64_decoded(s: Seq<char>) -> Option<Seq<u8>>;

/// Decode base64 with `base64`'s `Engine::decode` of the `STANDARD` engine. The
/// result is named: a text either has a decoding, always the same, or is
/// malformed.
#[verifier::external_body]
fn decode_b64(s: &str) -> (r: Option<Vec<u8>>)
    ensures
        r is Some <==> base64_decoded(s@) is Some,
        r matches Some(v) ==> base64_decoded(s@) == Some(v@),
{
    STANDARD.decode(s).ok()
}

impl SocketView {
    /// The state after a payload arrived on `conn`; one that could not be
    /// decoded is dropped.
    pub open spec fn with_payload(self, conn: i32, payload: Option<Seq<u8>>) -> SocketView {
        match payload {
            Some(bytes) => self.with_data(conn, bytes),
            None => self,
        }
    }

    /// The state after an event that a waiting `recv` or `accept4` met.
    pub open spec fn with_connection(self, server: i32, conn: i32) -> SocketView {
        self.with_waiting(server, self.waiting(server).push(conn))
    }
}

/// The bytes that an optional vector holds.
pub open spec fn opt_bytes(v: Option<Vec<u8>>) -> Option<Seq<u8>> {
    match v {
        Some(b) => Some(b@),
        None => None,
    }
}

/// Buffer a decoded payload for `conn`.
pub fn store_payload(state: &mut SocketState, conn: i32, payload: Option<Vec<u8>>)
    ensures
        final(state)@ == old(state)@.with_payload(conn, opt_bytes(payload)),
{
    match payload {
        Some(bytes) => state.push_data(conn, bytes),
        None => {},
    }
}

/// Reading up to `max` bytes that are there for `conn`: the sockets afterwards, and the
/// bytes if there are any.
pub open spec fn recv_ready(s: SocketView, conn: i32, max: int) -> (SocketView, Option<Seq<u8>>) {
    if s.unread(conn).len() > 0 {
        (s.with_drained(conn, max), Some(drained(s.chunks(conn), max)))
    } else {
        (s, None)
    }
}

/// Bytes that are there are read from the front, as many as are asked for or are there,
/// and the rest stays to be read.
pub proof fn law_recv_takes_from_front(s: SocketView, conn: i32, max: int)
    requires
        0 < max,
    ensures
        ({
            let (t, got) = recv_ready(s, conn, max);
            let all = s.unread(conn);
            &&& all.len() == 0 ==> got is None && t == s
            &&& all.len() > 0 ==> {
                &&& got is Some
                &&& got->0.len() == if max <= all.len() {
                    max
                } else {
                    all.len() as int
                }
                &&& got->0 == all.take(got->0.len() as int)
                &&& t.unread(conn) == all.skip(got->0.len() as int)
            }
        }),
{
    law_drain_keeps_bytes(s.chunks(conn), max);
    let (t, got) = recv_ready(s, conn, max);
    let all = s.unread(conn);
    if all.len() > 0 {
        let out = got->0;
        let rest = t.unread(conn);
        assert(out + rest == all);
        assert(out =~= all.take(out.len() as int));
        assert(rest =~= all.skip(out.len() as int));
    }
}

/// Bytes for a `recv` that need no waiting: up to `max` of those buffered for
/// `conn`, or `None` if there is nothing buffered.
pub fn recv_buffered(state: &mut SocketState, conn: i32, max: usize) -> (r: Option<Vec<u8>>)
    ensures
        ({
            let (after, got) = recv_ready(old(state)@, conn, max as int);
            &&& final(state)@ == after
            &&& match got {
                Some(bytes) => r is Some && r->0@ == bytes,
                None => r is None,
            }
        }),
{
    if state.has_buffered(conn) {
        Some(state.drain_recv(conn, max))
    } else {
        None
    }
}

/// The socket state after an event, as far as a waiting `recv` on `conn` takes
/// note of it: bytes for another connection are discarded.
pub open spec fn noted(s: SocketView, conn: i32, event: NetEvent) -> SocketView {
    match event {
        NetEvent::Data { conn: c, payload } if c == conn => s.with_payload(
            c,
            base64_decoded(payload@),
        ),
        NetEvent::Connection { server, conn: c } => s.with_connection(server, c),
        _ => s,
    }
}

/// The event ends the stream of `conn`.
pub open spec fn ends_stream(conn: i32, event: NetEvent) -> bool {
    match event {
        NetEvent::End { conn: c } => c == conn,
        NetEvent::Close { conn: c } => c == conn,
        _ => false,
    }
}

/// How a `recv` of up to `max` bytes on `conn` goes on after an event: the sockets
/// afterwards, and the bytes or the errno that it ends with, if it does.
pub open spec fn recv_went_on(
    s: SocketView,
    conn: i32,
    max: int,
    event: Option<NetEvent>,
) -> (SocketView, Option<Result<Seq<u8>, i32>>) {
    match event {
        None => (s, Some(Err(EAGAIN))),
        Some(ev) => {
            let t = noted(s, conn, ev);
            if ends_stream(conn, ev) {
                (t, Some(Ok(Seq::empty())))
            } else if t.unread(conn).len() > 0 {
                (t.with_drained(conn, max), Some(Ok(drained(t.chunks(conn), max))))
            } else {
                (t, None)
            }
        },
    }
}

/// A `recv` that waits gets the bytes that arrive for its connection, as many as it asked
/// for, and leaves the rest to be read. It goes on waiting when bytes arrive for another
/// connection, gets nothing at the end of its stream, and `EAGAIN` when time runs out.
pub proof fn law_recv_ends_with_its_bytes(
    s: SocketView,
    conn: i32,
    max: int,
    payload: String,
    bytes: Seq<u8>,
    other: i32,
)
    requires
        0 < max,
        s.unread(conn).len() == 0,
        base64_decoded(payload@) == Some(bytes),
        bytes.len() > 0,
        other != conn,
    ensures
        ({
            let (t, got) = recv_went_on(s, conn, max, Some(NetEvent::Data { conn, payload }));
            let n = if bytes.len() <= max {
                bytes.len() as int
            } else {
                max
            };
            &&& got matches Some(Ok(data)) && data == bytes.take(n)
            &&& t.unread(conn) == bytes.skip(n)
        }),
        recv_went_on(s, conn, max, Some(NetEvent::Data { conn: other, payload })) == (
            s,
            None::<Result<Seq<u8>, i32>>,
        ),
        recv_went_on(s, conn, max, Some(NetEvent::End { conn })) == (
            s,
            Some(Ok::<Seq<u8>, i32>(Seq::empty())),
        ),
        recv_went_on(s, conn, max, Some(NetEvent::Close { conn })) == (
            s,
            Some(Ok::<Seq<u8>, i32>(Seq::empty())),
        ),
        recv_went_on(s, conn, max, Some(NetEvent::End { conn: other })).1 is None,
        recv_went_on(s, conn, max, None).0 == s,
        recv_went_on(s, conn, max, None).1 matches Some(Err(e)) && e == -11,
{
    let t = noted(s, conn, NetEvent::Data { conn, payload });
    law_data_stays_with_connection(s, conn, bytes, other, max);
    law_data_stays_with_connection(t, conn, bytes, other, max);
    assert(s.unread(conn) + bytes =~= bytes);
    assert(t.unread(conn) == bytes);
    law_drain_keeps_bytes(t.chunks(conn), max);
    let out = drained(t.chunks(conn), max);
    let rest = t.with_drained(conn, max).unread(conn);
    assert(out + rest == bytes);
    assert(out =~= bytes.take(out.len() as int));
    assert(rest =~= bytes.skip(out.len() as int));
}

/// How a `recv` of up to `max` bytes on `conn` goes on after an event: its
/// result, or `None` to go on waiting. It waits until the connection has a byte
/// or is closed; the end of the stream gives no bytes. No event means that time
/// ran out: `EAGAIN`.
pub fn recv_event(
    state: &mut SocketState,
    conn: i32,
    max: usize,
    event: Option<NetEvent>,
) -> (r: Option<Result<Vec<u8>, i32>>)
    ensures
        ({
            let (after, got) = recv_went_on(old(state)@, conn, max as int, event);
            &&& final(state)@ == after
            &&& match got {
                None => r is None,
                Some(Err(e)) => r == Some(Err::<Vec<u8>, i32>(e)),
                Some(Ok(data)) => r matches Some(Ok(bytes)) && bytes@ == data,
            }
        }),
{
    match event {
        None => {
            return Some(Err(EAGAIN));
        },
        Some(NetEvent::Data { conn: c, payload }) => {
            if c == conn {
                let bytes = decode_b64(payload.as_str());
                store_payload(state, c, bytes);
            }
        },
        Some(NetEvent::End { conn: c }) => {
            if c == conn {
                return Some(Ok(Vec::new()));
            }
        },
        Some(NetEvent::Close { conn: c }) => {
            if c == conn {
                return Some(Ok(Vec::new()));
            }
        },
        Some(NetEvent::Connection { server, conn: c }) => state.push_pending(server, c),
        Some(_) => {},
    }
    match recv_buffered(state, conn, max) {
        Some(bytes) => Some(Ok(bytes)),
        None => None,
    }
}

/// What arrives for `conn` while it waits is what the read gives: the bytes of
/// the payload, up to `max` of them, and the rest stays for the next read.
pub proof fn law_recv_gives_payload(s: SocketView, conn: i32, bytes: Seq<u8>, max: int)
    requires
        0 <= max,
        s.chunks(conn).len() == 0,
    ensures
        ({
            let after = s.with_payload(conn, Some(bytes));
            let n = if bytes.len() <= max {
                bytes.len() as int
            } else {
                max
            };
            &&& drained(after.chunks(conn), max) == bytes.take(n)
            &&& crate::socket::flat(after.with_drained(conn, max).chunks(conn)) == bytes.skip(n)
        }),
{
    let after = s.with_payload(conn, Some(bytes));
    let q = after.chunks(conn);
    assert(q =~= Seq::<Seq<u8>>::empty().push(bytes));
    crate::socket::law_push_appends(Seq::<Seq<u8>>::empty(), bytes);
    assert(crate::socket::flat(q) =~= bytes);
    crate::socket::law_drain_keeps_bytes(q, max);
    let d = drained(q, max);
    let rest = crate::socket::flat(crate::socket::left_over(q, max));
    assert(d =~= (d + rest).take(d.len() as int));
    assert(rest =~= (d + rest).skip(d.len() as int));
}

/// Taking the connection that has waited longest on `server`: the sockets afterwards, and
/// the connection if there is one.
pub open spec fn next_waiting(s: SocketView, server: i32) -> (SocketView, Option<i32>) {
    let q = s.waiting(server);
    if q.len() > 0 {
        (s.with_waiting(server, q.skip(1)), Some(q[0]))
    } else {
        (s.with_waiting(server, q), None)
    }
}

/// Connections that came while nobody waited are accepted in the order in which they came,
/// each one once; those of another server are not touched.
pub proof fn law_waiting_are_accepted_in_order(
    s: SocketView,
    server: i32,
    first: i32,
    second: i32,
    other: i32,
)
    requires
        s.waiting(server).len() == 0,
        other != server,
    ensures
        ({
            let q = s.with_connection(server, first).with_connection(server, second);
            let (t, a) = next_waiting(q, server);
            let (u, b) = next_waiting(t, server);
            &&& a == Some(first)
            &&& b == Some(second)
            &&& next_waiting(u, server).1 is None
            &&& u.waiting(other) == s.waiting(other)
            &&& next_waiting(s, server).1 is None
            &&& u.conns == s.conns && u.received == s.received
        }),
{
}

/// A connection for `accept4` that needs no waiting: the one that has waited
/// longest on `server`.
pub fn accept_waiting(state: &mut SocketState, server: i32) -> (r: Option<i32>)
    ensures
        (final(state)@, r) == next_waiting(old(state)@, server),
{
    state.pop_pending(server)
}

/// How the wait of `accept4` on `server` goes on after an event: the sockets afterwards,
/// and the connection or the errno that it ends with, if it does.
pub open spec fn accept_went_on(s: SocketView, server: i32, event: Option<NetEvent>) -> (
    SocketView,
    Option<Result<i32, i32>>,
) {
    match event {
        None => (s, Some(Err(EAGAIN))),
        Some(NetEvent::Connection { server: at, conn }) if at == server => (s, Some(Ok(conn))),
        Some(NetEvent::Data { conn, payload }) => (
            s.with_payload(conn, base64_decoded(payload@)),
            None,
        ),
        _ => (s, None),
    }
}

/// `accept4` ends with the connection that its own server reports, and with `EAGAIN` when
/// time runs out. Bytes that arrive meanwhile are kept for their connection, and nothing
/// else changes or ends the wait.
pub proof fn law_accept_waits_for_its_server(
    s: SocketView,
    server: i32,
    event: NetEvent,
    conn: i32,
    bytes: Seq<u8>,
)
    ensures
        accept_went_on(s, server, None).0 == s,
        accept_went_on(s, server, None).1 matches Some(Err(e)) && e == -11,
        event == (NetEvent::Connection { server, conn }) ==> accept_went_on(s, server, Some(event))
            == (s, Some(Ok::<i32, i32>(conn))),
        (accept_went_on(s, server, Some(event)).1 is Some) ==> (event matches NetEvent::Connection {
            server: at,
            conn: c,
        } && at == server),
        (event matches NetEvent::Data { conn: c, payload } && c == conn && base64_decoded(payload@)
            == Some(bytes)) ==> accept_went_on(s, server, Some(event)).0.unread(conn) == s.unread(
            conn,
        ) + bytes,
        !(event is Data) ==> accept_went_on(s, server, Some(event)).0 == s,
{
    law_data_stays_with_connection(
        s,
        conn,
        bytes,
        if conn == 0 {
            1
        } else {
            0
        },
        0,
    );
}

/// How the wait of `accept4` on `server` goes on after an event: its result, or
/// `None` to go on waiting. It waits for a connection to the server; bytes that
/// arrive meanwhile are buffered. No event means that time ran out: `EAGAIN`.
pub fn accept_event(state: &mut SocketState, server: i32, event: Option<NetEvent>) -> (r: Option<
    Result<i32, i32>,
>)
    ensures
        (final(state)@, r) == accept_went_on(old(state)@, server, event),
{
    match event {
        None => Some(Err(EAGAIN)),
        Some(NetEvent::Connection { server: s, conn }) => if s == server {
            Some(Ok(conn))
        } else {
            None
        },
        Some(NetEvent::Data { conn, payload }) => {
            let bytes = decode_b64(payload.as_str());
            store_payload(state, conn, bytes);
            None
        },
        Some(_) => None,
    }
}

/// Memory after the peer of an accepted connection was reported, as far as the
/// guest asked for it and there is room. The peer is not known: it reads as
/// 0.0.0.0:0, or as an unnamed Unix socket.
pub open spec fn peer_reported(
    mem: Seq<u8>,
    link: Link,
    addr_ptr: i32,
    addrlen_ptr: i32,
) -> Seq<u8> {
    if addr_ptr == 0 {
        mem
    } else {
        let (name, len): (Seq<u8>, nat) = match link {
            Link::Tcp => (sockaddr_in("0.0.0.0"@, 0), 16),
            Link::Unix => (seq![1u8, 0u8, 0u8], 3),
        };
        let m = if guest_range(mem, addr_ptr, len as int) {
            splice(mem, addr(addr_ptr), name)
        } else {
            mem
        };
        if addrlen_ptr != 0 && guest_range(m, addrlen_ptr, 4) {
            splice(m, addr(addrlen_ptr), le_bytes(len, 4))
        } else {
            m
        }
    }
}

/// The sockets after a connection was accepted: the next descriptor is a stream socket
/// of the link's kind, with that connection.
pub open spec fn accepted(s: SocketView, link: Link, conn: i32) -> SocketView {
    SocketView {
        conns: s.conns.insert(s.next_fd, conn),
        ..s.with_socket(
            match link {
                Link::Tcp => SockKind::TcpStream,
                Link::Unix => SockKind::UnixStream,
            },
        )
    }
}

/// Complete `accept4`: the connection gets a descriptor of its own.
pub fn finish_accept(
    state: &mut SocketState,
    mem: &mut [u8],
    link: Link,
    conn: i32,
    addr_ptr: i32,
    addrlen_ptr: i32,
) -> (r: i32)
    ensures
        r == old(state)@.next_fd,
        final(state)@ == accepted(old(state)@, link, conn),
        final(mem)@ == peer_reported(old(mem)@, link, addr_ptr, addrlen_ptr),
{
    let fd: i32 = state.alloc_fd();
    state.set_conn(fd, conn);
    match link {
        Link::Tcp => state.set_kind(fd, SockKind::TcpStream),
        Link::Unix => state.set_kind(fd, SockKind::UnixStream),
    }
    if addr_ptr != 0 {
        let len: u32 = match link {
            Link::Tcp => {
                write_sockaddr_in(mem, addr_of(addr_ptr), "0.0.0.0", 0);
                16
            },
            Link::Unix => {
                write_sockaddr_un_empty(mem, addr_of(addr_ptr));
                3
            },
        };
        if addrlen_ptr != 0 {
            write_u32(mem, addrlen_ptr, len);
        }
    }
    fd
}

/// Writing `data` to the connection of `fd`.
pub open spec fn writing(s: SocketView, services: Services, fd: i32, data: Seq<u8>) -> StepView {
    let link = if s.kind(fd) == Some(SockKind::UnixStream) {
        Link::Unix
    } else {
        Link::Tcp
    };
    if !granted(services, link) {
        StepView::Return(EPERM)
    } else if id_of(s.conns, fd) == EBADF {
        StepView::Return(EBADF)
    } else {
        StepView::Write(link, id_of(s.conns, fd), data, data.len() as i32)
    }
}

fn write_step(state: &SocketState, services: Services, fd: i32, data: Vec<u8>) -> (r: SocketStep)
    ensures
        r@ == writing(state@, services, fd, data@),
{
    let link = link_of(state, fd);
    if !is_granted(services, link) {
        return SocketStep::Return(EPERM);
    }
    let conn: i32 = id_or_ebadf(state.conn_of(fd));
    if conn == EBADF {
        return SocketStep::Return(EBADF);
    }
    let count: i32 = data.len() as i32;
    SocketStep::Write { link, conn, data, count }
}

/// What the buffers of the message header at `msg_ptr` hold.
pub open spec fn message(mem: Seq<u8>, msg_ptr: i32) -> Result<Seq<u8>, i32> {
    let p = addr(msg_ptr) + 8;
    if p + 8 > mem.len() {
        Err(EINVAL)
    } else {
        gathered(mem, size_at(mem, p), size_at(mem, p + 4))
    }
}

/// Where a message header keeps its list of buffers; `None` beyond any memory.
fn iov_field(msg_ptr: i32) -> (r: Option<usize>)
    ensures
        match r {
            Some(p) => p == addr(msg_ptr) + 8,
            None => addr(msg_ptr) + 8 > usize::MAX,
        },
{
    let at: usize = addr_of(msg_ptr);
    if at > usize::MAX - 8 {
        None
    } else {
        Some(at + 8)
    }
}

/// What sending the message at `msg_ptr` does.
pub open spec fn message_sent(
    s: SocketView,
    services: Services,
    mem: Seq<u8>,
    fd: i32,
    msg_ptr: i32,
) -> StepView {
    match message(mem, msg_ptr) {
        Err(e) => StepView::Return(e),
        Ok(data) => writing(s, services, fd, data),
    }
}

/// `sendmsg`: write the buffers of the message header at `msg_ptr`, joined, to
/// the connection of `fd`. Returns their length whatever became of them.
pub fn syscall_sendmsg(
    state: &SocketState,
    services: Services,
    mem: &[u8],
    fd: i32,
    msg_ptr: i32,
) -> (r: SocketStep)
    ensures
        r@ == message_sent(state@, services, mem@, fd, msg_ptr),
{
    let len: usize = mem.len();
    match iov_field(msg_ptr) {
        None => SocketStep::Return(EINVAL),
        Some(p) => match gather_iov(mem, p) {
            Err(e) => SocketStep::Return(e),
            Ok(data) => write_step(state, services, fd, data),
        },
    }
}

/// Reading up to `max` bytes from the connection of `fd`.
pub open spec fn reading(s: SocketView, services: Services, fd: i32, max: usize) -> StepView {
    let link = if s.kind(fd) == Some(SockKind::UnixStream) {
        Link::Unix
    } else {
        Link::Tcp
    };
    if !granted(services, link) {
        StepView::Return(EPERM)
    } else if id_of(s.conns, fd) == EBADF {
        StepView::Return(EBADF)
    } else {
        StepView::Receive(link, id_of(s.conns, fd), max)
    }
}

fn read_step(state: &SocketState, services: Services, fd: i32, max: usize) -> (r: SocketStep)
    ensures
        r@ == reading(state@, services, fd, max),
{
    let link = link_of(state, fd);
    if !is_granted(services, link) {
        return SocketStep::Return(EPERM);
    }
    let conn: i32 = id_or_ebadf(state.conn_of(fd));
    if conn == EBADF {
        return SocketStep::Return(EBADF);
    }
    SocketStep::Receive { link, conn, max }
}

/// How many bytes the buffers of the message header at `msg_ptr` take.
pub open spec fn message_room(mem: Seq<u8>, msg_ptr: i32) -> int {
    let p = addr(msg_ptr) + 8;
    let room = if p + 8 > mem.len() {
        0
    } else {
        total_len(mem, size_at(mem, p), size_at(mem, p + 4))
    };
    if room > usize::MAX {
        usize::MAX as int
    } else {
        room
    }
}

/// `recvmsg`: wait for as many bytes as the buffers of the message header at
/// `msg_ptr` take.
pub fn syscall_recvmsg(
    state: &SocketState,
    services: Services,
    mem: &[u8],
    fd: i32,
    msg_ptr: i32,
) -> (r: SocketStep)
    ensures
        r@ == reading(state@, services, fd, message_room(mem@, msg_ptr) as usize),
{
    let len: usize = mem.len();
    let max: usize = match iov_field(msg_ptr) {
        None => 0,
        Some(p) => iov_capacity(mem, p),
    };
    read_step(state, services, fd, max)
}

/// Laying what was received into the buffers of the message header at `msg_ptr`: memory
/// afterwards and the result.
pub open spec fn message_received(mem: Seq<u8>, msg_ptr: i32, bytes: Seq<u8>) -> (Seq<u8>, i32) {
    let p = addr(msg_ptr) + 8;
    if bytes.len() == 0 {
        (mem, 0i32)
    } else if p + 8 > mem.len() {
        (mem, EINVAL)
    } else {
        let done = scattered(mem, size_at(mem, p), size_at(mem, p + 4), bytes, 0);
        (done.0, done.1 as i32)
    }
}

/// What was received stands in the buffers of the message, joined in their order, as much
/// of it as there is room for, and the guest gets its length. The buffers must lie inside
/// memory and apart from each other and from their descriptions.
pub proof fn law_message_is_received(
    mem: Seq<u8>,
    msg_ptr: i32,
    list: i32,
    n: i32,
    bytes: Seq<u8>,
)
    requires
        msg_ptr as u32 + 16 <= mem.len(),
        signed_at(mem, msg_ptr as u32 + 8) == list,
        signed_at(mem, msg_ptr as u32 + 12) == n,
        0 <= list,
        0 <= n,
        gathered(mem, list as int, n as int) is Ok,
        apart(mem, list as int, n as int),
        0 < bytes.len() <= i32::MAX,
    ensures
        ({
            let (after, r) = message_received(mem, msg_ptr, bytes);
            let room = gathered(mem, list as int, n as int)->Ok_0.len();
            &&& bytes.len() <= room ==> r == bytes.len()
            &&& bytes.len() > room ==> r == room
            &&& after.len() == mem.len()
            &&& gathered(after, list as int, n as int) is Ok
            &&& gathered(after, list as int, n as int)->Ok_0.take(r as int) == bytes.take(r as int)
            &&& message_room(mem, msg_ptr) == if room <= usize::MAX {
                room as int
            } else {
                usize::MAX as int
            }
        }),
{
    law_gather_reads_back_scatter(mem, list as int, n as int, bytes);
    law_capacity_is_gathered_len(mem, list as int, n as int);
    let before = gathered(mem, list as int, n as int)->Ok_0;
    let (after, r) = message_received(mem, msg_ptr, bytes);
    let k = r as int;
    assert((bytes.take(k) + before.skip(k)).take(k) =~= bytes.take(k));
}

/// Complete `recvmsg`: lay what was received into the buffers of the message
/// header. Returns the bytes laid there, 0 at the end of the stream, or the
/// errno of the wait.
pub fn finish_recvmsg(mem: &mut [u8], msg_ptr: i32, got: Result<Vec<u8>, i32>) -> (r: i32)
    ensures
        match got {
            Err(e) => r == e && final(mem)@ == old(mem)@,
            Ok(bytes) => (final(mem)@, r) == message_received(old(mem)@, msg_ptr, bytes@),
        },
{
    match got {
        Err(e) => e,
        Ok(bytes) => {
            if bytes.len() == 0 {
                return 0;
            }
            let len: usize = mem.len();
            match iov_field(msg_ptr) {
                None => EINVAL,
                Some(p) => scatter_iov(mem, p, &bytes),
            }
        },
    }
}

/// Tearing down the connection of `fd`.
pub open spec fn tearing_down(s: SocketView, services: Services, fd: i32) -> StepView {
    let link = if s.kind(fd) == Some(SockKind::UnixStream) {
        Link::Unix
    } else {
        Link::Tcp
    };
    if !granted(services, link) {
        StepView::Return(EPERM)
    } else if s.conns.contains_key(fd) {
        StepView::Destroy(link, s.conns[fd])
    } else {
        StepView::Return(EBADF)
    }
}

/// `shutdown`: tear down the connection of `fd`.
pub fn syscall_shutdown(state: &SocketState, services: Services, fd: i32) -> (r: SocketStep)
    ensures
        r@ == tearing_down(state@, services, fd),
{
    let link = link_of(state, fd);
    if !is_granted(services, link) {
        return SocketStep::Return(EPERM);
    }
    match state.conn_of(fd) {
        Some(conn) => SocketStep::Destroy { link, conn },
        None => SocketStep::Return(EBADF),
    }
}

/// What `sendto` does with `data`, given the destination read as an IPv4 and as
/// a Unix address; `None` where the guest named none, in which case the default
/// peer is used. A UDP socket that is not bound yet has to be bound to any port
/// first.
pub open spec fn sending(
    s: SocketView,
    services: Services,
    fd: i32,
    data: Seq<u8>,
    named: bool,
    inet: Option<(Seq<char>, u16)>,
    unix: Option<Seq<char>>,
) -> StepView {
    match s.kind(fd) {
        Some(SockKind::UdpDgram) => if !services.dgram {
            StepView::Return(EPERM)
        } else if !s.udp_ids.contains_key(fd) {
            StepView::BindUdp("0.0.0.0"@, 0)
        } else if named {
            match inet {
                Some((host, port)) => StepView::SendUdp(s.udp_ids[fd], host, port, data),
                None => StepView::Return(EINVAL),
            }
        } else if s.udp_peers.contains_key(fd) {
            StepView::SendUdp(s.udp_ids[fd], s.udp_peers[fd].0, s.udp_peers[fd].1, data)
        } else {
            StepView::Return(EINVAL)
        },
        Some(SockKind::UnixDgram) => if !services.unix {
            StepView::Return(EPERM)
        } else if id_of(s.unix_ids, fd) == EBADF {
            StepView::Return(EBADF)
        } else if named {
            match unix {
                Some(path) => StepView::SendUnix(id_of(s.unix_ids, fd), path, data),
                None => StepView::Return(EINVAL),
            }
        } else if s.unix_peers.contains_key(fd) {
            StepView::SendUnix(id_of(s.unix_ids, fd), s.unix_peers[fd], data)
        } else {
            StepView::Return(EINVAL)
        },
        _ => writing(s, services, fd, data),
    }
}

/// `sendto` with the data and the destination already read.
pub fn send_to(
    state: &SocketState,
    services: Services,
    fd: i32,
    data: Vec<u8>,
    named: bool,
    inet: Option<(String, u16)>,
    unix: Option<String>,
) -> (r: SocketStep)
    ensures
        r@ == sending(
            state@,
            services,
            fd,
            data@,
            named,
            opt_peer(inet),
            opt_text(unix),
        ),
{
    match state.fd_kind(fd) {
        Some(SockKind::UdpDgram) => {
            if !services.dgram {
                return SocketStep::Return(EPERM);
            }
            let id: i32 = match state.udp_of(fd) {
                None => {
                    let any = crate::text::concat("0.0.0.0", "");
                    proof {
                        reveal_strlit("");
                        assert(any@ =~= "0.0.0.0"@);
                    }
                    return SocketStep::BindUdp { host: any, port: 0 };
                },
                Some(id) => id,
            };
            let peer = if named {
                inet
            } else {
                state.udp_peer_of(fd)
            };
            match peer {
                Some((host, port)) => SocketStep::SendUdp { id, host, port, data },
                None => SocketStep::Return(EINVAL),
            }
        },
        Some(SockKind::UnixDgram) => {
            if !services.unix {
                return SocketStep::Return(EPERM);
            }
            let id: i32 = id_or_ebadf(state.unix_dgram_of(fd));
            if id == EBADF {
                return SocketStep::Return(EBADF);
            }
            let peer = if named {
                unix
            } else {
                state.unix_peer_of(fd)
            };
            match peer {
                Some(path) => SocketStep::SendUnix { id, path, data },
                None => SocketStep::Return(EINVAL),
            }
        },
        _ => write_step(state, services, fd, data),
    }
}

/// What `sendto` of `len` bytes at `buf` to the address at `addr_ptr` does.
pub open spec fn sending_from(
    s: SocketView,
    services: Services,
    mem: Seq<u8>,
    fd: i32,
    buf: i32,
    len: i32,
    addr_ptr: i32,
) -> StepView {
    if !guest_range(mem, buf, len as u32 as int) {
        StepView::Return(EINVAL)
    } else {
        sending(
            s,
            services,
            fd,
            mem.subrange(addr(buf), addr(buf) + len as u32),
            addr_ptr != 0,
            sockaddr_in_at(mem, addr(addr_ptr)),
            unix_path_at(mem, addr(addr_ptr)),
        )
    }
}

/// `sendto`: send `len` bytes at `buf` to the address at `addr_ptr`, or to the
/// default peer if that is 0. Where the step is to bind a UDP socket,
/// [`finish_auto_bind`] goes on.
pub fn syscall_sendto(
    state: &SocketState,
    services: Services,
    mem: &[u8],
    fd: i32,
    buf: i32,
    len: i32,
    addr_ptr: i32,
) -> (r: SocketStep)
    ensures
        r@ == sending_from(state@, services, mem@, fd, buf, len, addr_ptr),
{
    let data = match crate::bytes::read_bytes(mem, buf, len as u32 as usize) {
        None => {
            return SocketStep::Return(EINVAL);
        },
        Some(d) => d,
    };
    let at: usize = addr_of(addr_ptr);
    let inet = parse_sockaddr_in(mem, at);
    let unix = parse_sockaddr_un(mem, at);
    send_to(state, services, fd, data, addr_ptr != 0, inet, unix)
}

/// Go on with a `sendto` whose socket had to be bound to any port first: a
/// negative `id` means that this failed, otherwise the data is sent from there.
pub fn finish_auto_bind(
    state: &mut SocketState,
    services: Services,
    mem: &[u8],
    fd: i32,
    buf: i32,
    len: i32,
    addr_ptr: i32,
    id: i32,
) -> (r: SocketStep)
    ensures
        if id < 0 {
            r@ == StepView::Return(EINVAL) && final(state)@ == old(state)@
        } else {
            let bound = bound_udp(old(state)@, fd, id);
            final(state)@ == bound && r@ == sending_from(
                bound,
                services,
                mem@,
                fd,
                buf,
                len,
                addr_ptr,
            )
        },
{
    let bound: i32 = finish_bind_udp(state, fd, id);
    if bound < 0 {
        return SocketStep::Return(bound);
    }
    syscall_sendto(state, services, mem, fd, buf, len, addr_ptr)
}

/// What `recvfrom` of `len` bytes waits for.
pub open spec fn receiving(s: SocketView, services: Services, fd: i32, len: i32) -> StepView {
    match s.kind(fd) {
        Some(SockKind::UdpDgram) => if !services.dgram {
            StepView::Return(EPERM)
        } else if id_of(s.udp_ids, fd) == EBADF {
            StepView::Return(EBADF)
        } else {
            StepView::ReceiveUdp(id_of(s.udp_ids, fd), len as u32 as usize)
        },
        Some(SockKind::UnixDgram) => if !services.unix {
            StepView::Return(EPERM)
        } else if id_of(s.unix_ids, fd) == EBADF {
            StepView::Return(EBADF)
        } else {
            StepView::ReceiveUnix(id_of(s.unix_ids, fd), len as u32 as usize)
        },
        _ => reading(s, services, fd, len as u32 as usize),
    }
}

/// `recvfrom`: wait for up to `len` bytes on a connection, or for a datagram.
pub fn syscall_recvfrom(state: &SocketState, services: Services, fd: i32, len: i32) -> (r:
    SocketStep)
    ensures
        r@ == receiving(state@, services, fd, len),
{
    let max: usize = len as u32 as usize;
    match state.fd_kind(fd) {
        Some(SockKind::UdpDgram) => {
            if !services.dgram {
                return SocketStep::Return(EPERM);
            }
            let id: i32 = id_or_ebadf(state.udp_of(fd));
            if id == EBADF {
                return SocketStep::Return(EBADF);
            }
            SocketStep::ReceiveUdp { id, max }
        },
        Some(SockKind::UnixDgram) => {
            if !services.unix {
                return SocketStep::Return(EPERM);
            }
            let id: i32 = id_or_ebadf(state.unix_dgram_of(fd));
            if id == EBADF {
                return SocketStep::Return(EBADF);
            }
            SocketStep::ReceiveUnix { id, max }
        },
        _ => read_step(state, services, fd, max),
    }
}

/// Laying up to `len` bytes of what was received at `buf`: memory afterwards and the
/// result.
pub open spec fn received(mem: Seq<u8>, buf: i32, len: i32, bytes: Seq<u8>) -> (Seq<u8>, i32) {
    let n = if bytes.len() <= len as u32 {
        bytes.len() as int
    } else {
        len as u32 as int
    };
    (
        if guest_range(mem, buf, n) {
            splice(mem, addr(buf), bytes.take(n))
        } else {
            mem
        },
        n as i32,
    )
}

/// What was received stands at the buffer of the guest, from its first byte on, as much
/// as there is or as was asked for, and the guest gets its length. No other byte of
/// memory changes.
pub proof fn law_received_reaches_guest(mem: Seq<u8>, buf: i32, len: i32, bytes: Seq<u8>, i: int)
    requires
        0 <= len,
        buf as u32 + len <= mem.len(),
        0 <= i < mem.len(),
    ensures
        ({
            let (after, r) = received(mem, buf, len, bytes);
            let at = buf as u32 as int;
            &&& bytes.len() <= len ==> r == bytes.len()
            &&& bytes.len() > len ==> r == len
            &&& after.len() == mem.len()
            &&& at <= i < at + r ==> after[i] == bytes[i - at]
            &&& !(at <= i < at + r) ==> after[i] == mem[i]
        }),
{
    assert(len as u32 == len);
}

/// `recvfrom` on a stream socket waits on its connection, and on a datagram socket on
/// the id that it is bound to, in either case for up to `len` bytes.
pub proof fn law_recv_waits_on_its_own(
    s: SocketView,
    services: Services,
    fd: i32,
    len: i32,
    id: i32,
)
    requires
        0 <= len,
        id != -9,
        services.net,
        services.dgram,
        services.unix,
    ensures
        (s.kind(fd) is None || s.kind(fd) == Some(SockKind::TcpStream)) && s.conns.contains_key(fd)
            && s.conns[fd] == id ==> receiving(s, services, fd, len) == StepView::Receive(
            Link::Tcp,
            id,
            len as usize,
        ),
        s.kind(fd) == Some(SockKind::UnixStream) && s.conns.contains_key(fd) && s.conns[fd] == id
            ==> receiving(s, services, fd, len) == StepView::Receive(Link::Unix, id, len as usize),
        s.kind(fd) == Some(SockKind::UdpDgram) && s.udp_ids.contains_key(fd) && s.udp_ids[fd] == id
            ==> receiving(s, services, fd, len) == StepView::ReceiveUdp(id, len as usize),
        s.kind(fd) == Some(SockKind::UnixDgram) && s.unix_ids.contains_key(fd) && s.unix_ids[fd]
            == id ==> receiving(s, services, fd, len) == StepView::ReceiveUnix(id, len as usize),
{
    assert(len as u32 == len);
}

/// An accepted connection has a socket of its own: a new descriptor, a stream of the
/// link's kind, which reads from and writes to that connection. The sockets that were
/// there are as they were.
pub proof fn law_accepted_socket_has_connection(
    s: SocketView,
    services: Services,
    link: Link,
    conn: i32,
    other: i32,
    data: Seq<u8>,
    max: usize,
)
    requires
        services.net,
        services.unix,
        conn != -9,
        other != s.next_fd,
    ensures
        ({
            let t = accepted(s, link, conn);
            let fd = s.next_fd;
            &&& t.next_fd != fd
            &&& t.kind(fd) == Some(
                match link {
                    Link::Tcp => SockKind::TcpStream,
                    Link::Unix => SockKind::UnixStream,
                },
            )
            &&& writing(t, services, fd, data) == StepView::Write(
                link,
                conn,
                data,
                data.len() as i32,
            )
            &&& reading(t, services, fd, max) == StepView::Receive(link, conn, max)
            &&& t.kind(other) == s.kind(other)
            &&& writing(t, services, other, data) == writing(s, services, other, data)
            &&& reading(t, services, other, max) == reading(s, services, other, max)
        }),
{
}

/// Bytes that arrive for a connection are read behind those that are there, and those of
/// other connections are as they were.
pub proof fn law_data_stays_with_connection(
    s: SocketView,
    conn: i32,
    bytes: Seq<u8>,
    other: i32,
    max: int,
)
    requires
        other != conn,
        0 <= max,
    ensures
        s.with_data(conn, bytes).unread(conn) == s.unread(conn) + bytes,
        s.with_data(conn, bytes).unread(other) == s.unread(other),
        s.with_drained(conn, max).unread(other) == s.unread(other),
        drained(s.chunks(conn), max) + s.with_drained(conn, max).unread(conn) == s.unread(conn),
        max >= s.unread(conn).len() ==> drained(s.chunks(conn), max) == s.unread(conn),
{
    crate::socket::law_push_appends(s.chunks(conn), bytes);
    law_drain_keeps_bytes(s.chunks(conn), max);
    let q = s.chunks(conn);
    let out = drained(q, max);
    let rest = s.with_drained(conn, max).unread(conn);
    if !s.received.contains_key(conn) {
        assert(out + rest =~= s.unread(conn));
    }
    if max >= s.unread(conn).len() {
        assert(out =~= (out + rest).take(out.len() as int));
        assert(rest.len() == 0);
        assert(out + rest =~= out);
    }
}

/// A socket can be asked for exactly as an IPv4 stream: domain 2 and type 1, whatever
/// flags stand above the low bits of the type.
pub proof fn law_only_streams_are_made(domain: i32, sock_type: i32)
    ensures
        kind_for(domain, sock_type) is Some <==> domain == 2 && sock_type as int % 16 == 1,
        kind_for(domain, sock_type) matches Some(kind) ==> kind == SockKind::TcpStream,
{
    assert(sock_type & 0xf == 1 <==> (sock_type as u32) % 16 == 1) by (bit_vector);
    assert(sock_type < 0 ==> (sock_type as u32) as i64 == (sock_type as i64) + 0x1_0000_0000i64)
        by (bit_vector);
}

/// Complete `recvfrom`: up to `len` bytes of what was received go to `buf`, if
/// there is room for them in memory. Returns how many, or the errno of the wait.
pub fn finish_recvfrom(mem: &mut [u8], buf: i32, len: i32, got: Result<Vec<u8>, i32>) -> (r: i32)
    ensures
        match got {
            Err(e) => r == e && final(mem)@ == old(mem)@,
            Ok(bytes) => (final(mem)@, r) == received(old(mem)@, buf, len, bytes@),
        },
{
    match got {
        Err(e) => e,
        Ok(bytes) => {
            if bytes.len() == 0 {
                assert(splice(mem@, addr(buf), bytes@.take(0)) =~= mem@);
                return 0;
            }
            let max: usize = len as u32 as usize;
            let n: usize = if bytes.len() <= max {
                bytes.len()
            } else {
                max
            };
            let start: usize = addr_of(buf);
            if in_range(mem.len(), start, n) {
                assert(bytes@.subrange(0, n as int) =~= bytes@.take(n as int));
                write_at(mem, start, &bytes[0..n]);
            }
            n as i32
        },
    }
}

/// `sendto` on a connected stream socket whose coordinator was granted, with a buffer
/// that lies inside memory, writes to the very connection of the socket. The data are
/// the `len` bytes of memory at `buf`, and `len` is what the guest gets.
pub proof fn law_stream_sends_its_buffer(
    s: SocketView,
    services: Services,
    mem: Seq<u8>,
    fd: i32,
    buf: i32,
    len: i32,
    addr_ptr: i32,
    conn: i32,
)
    requires
        s.kind(fd) is None || s.kind(fd) == Some(SockKind::TcpStream) || s.kind(fd) == Some(
            SockKind::UnixStream,
        ),
        s.kind(fd) == Some(SockKind::UnixStream) ==> services.unix,
        s.kind(fd) != Some(SockKind::UnixStream) ==> services.net,
        s.conns.contains_key(fd),
        s.conns[fd] == conn,
        conn != -9,
        buf as u32 + len as u32 <= mem.len(),
    ensures
        sending_from(s, services, mem, fd, buf, len, addr_ptr) == StepView::Write(
            if s.kind(fd) == Some(SockKind::UnixStream) {
                Link::Unix
            } else {
                Link::Tcp
            },
            conn,
            mem.subrange(buf as u32 as int, buf as u32 + len as u32),
            len,
        ),
{
    assert(mem.subrange(addr(buf), addr(buf) + len as u32).len() == len as u32);
    assert(len as u32 as i32 == len) by (bit_vector);
}

/// `sendto` on a datagram socket that is bound sends the `len` bytes of memory at
/// `buf`, to the address that the guest named, or else to the default peer of the
/// socket. Without either it is `EINVAL`.
pub proof fn law_datagram_sends_its_buffer(
    s: SocketView,
    services: Services,
    mem: Seq<u8>,
    fd: i32,
    buf: i32,
    len: i32,
    addr_ptr: i32,
    id: i32,
)
    requires
        buf as u32 + len as u32 <= mem.len(),
        id != -9,
        s.kind(fd) == Some(SockKind::UdpDgram) ==> services.dgram && s.udp_ids.contains_key(fd)
            && s.udp_ids[fd] == id,
        s.kind(fd) == Some(SockKind::UnixDgram) ==> services.unix && s.unix_ids.contains_key(fd)
            && s.unix_ids[fd] == id,
    ensures
        ({
            let data = mem.subrange(buf as u32 as int, buf as u32 + len as u32);
            let r = sending_from(s, services, mem, fd, buf, len, addr_ptr);
            &&& s.kind(fd) == Some(SockKind::UdpDgram) ==> match (if addr_ptr != 0 {
                sockaddr_in_at(mem, addr_ptr as u32 as int)
            } else if s.udp_peers.contains_key(fd) {
                Some(s.udp_peers[fd])
            } else {
                None
            }) {
                Some((host, port)) => r == StepView::SendUdp(id, host, port, data),
                None => r matches StepView::Return(e) && e == -22,
            }
            &&& s.kind(fd) == Some(SockKind::UnixDgram) ==> match (if addr_ptr != 0 {
                unix_path_at(mem, addr_ptr as u32 as int)
            } else if s.unix_peers.contains_key(fd) {
                Some(s.unix_peers[fd])
            } else {
                None
            }) {
                Some(path) => r == StepView::SendUnix(id, path, data),
                None => r matches StepView::Return(e) && e == -22,
            }
        }),
{
}

/// `sendto` of a buffer that leaves memory is `EINVAL`, whatever the socket.
pub proof fn law_send_needs_its_buffer(
    s: SocketView,
    services: Services,
    mem: Seq<u8>,
    fd: i32,
    buf: i32,
    len: i32,
    addr_ptr: i32,
)
    requires
        buf as u32 + len as u32 > mem.len(),
    ensures
        sending_from(s, services, mem, fd, buf, len, addr_ptr) matches StepView::Return(e) && e
            == -22,
{
}

/// `sendmsg` on a connected stream socket whose coordinator was granted writes the
/// buffers of the message, joined in their order, to the connection of the socket,
/// and the guest gets their length. The list of buffers is the one whose address and
/// length stand at offsets 8 and 12 of the message header.
pub proof fn law_message_is_sent(
    s: SocketView,
    services: Services,
    mem: Seq<u8>,
    fd: i32,
    msg_ptr: i32,
    conn: i32,
    list: i32,
    n: i32,
)
    requires
        s.kind(fd) == Some(SockKind::UnixStream) ==> services.unix,
        s.kind(fd) != Some(SockKind::UnixStream) ==> services.net,
        s.conns.contains_key(fd),
        s.conns[fd] == conn,
        conn != -9,
        msg_ptr as u32 + 16 <= mem.len(),
        signed_at(mem, msg_ptr as u32 + 8) == list,
        signed_at(mem, msg_ptr as u32 + 12) == n,
        0 <= list,
        0 <= n,
        gathered(mem, list as int, n as int) is Ok,
    ensures
        message_sent(s, services, mem, fd, msg_ptr) == StepView::Write(
            if s.kind(fd) == Some(SockKind::UnixStream) {
                Link::Unix
            } else {
                Link::Tcp
            },
            conn,
            gathered(mem, list as int, n as int)->Ok_0,
            gathered(mem, list as int, n as int)->Ok_0.len() as i32,
        ),
{
}

/// A stream socket that was connected reads from and writes to its connection and
/// tears it down, through the coordinator of its kind; other sockets keep theirs.
pub proof fn law_connected_socket_uses_its_connection(
    s: SocketView,
    services: Services,
    fd: i32,
    conn: i32,
    other: i32,
    data: Seq<u8>,
    max: usize,
)
    requires
        conn != -9,
        s.kind(fd) == Some(SockKind::UnixStream) ==> services.unix,
        s.kind(fd) != Some(SockKind::UnixStream) ==> services.net,
    ensures
        ({
            let after = connected(s, fd, conn);
            let link = if s.kind(fd) == Some(SockKind::UnixStream) {
                Link::Unix
            } else {
                Link::Tcp
            };
            &&& writing(after, services, fd, data) == StepView::Write(
                link,
                conn,
                data,
                data.len() as i32,
            )
            &&& reading(after, services, fd, max) == StepView::Receive(link, conn, max)
            &&& tearing_down(after, services, fd) == StepView::Destroy(link, conn)
            &&& other != fd ==> {
                &&& writing(after, services, other, data) == writing(s, services, other, data)
                &&& reading(after, services, other, max) == reading(s, services, other, max)
                &&& tearing_down(after, services, other) == tearing_down(s, services, other)
            }
        }),
{
}

/// A socket without a connection cannot be read from, written to or torn down:
/// `EBADF`. Without its coordinator every one of these is `EPERM`.
pub proof fn law_streams_need_connection_and_grant(
    s: SocketView,
    services: Services,
    fd: i32,
    data: Seq<u8>,
    max: usize,
)
    ensures
        ({
            let allowed = if s.kind(fd) == Some(SockKind::UnixStream) {
                services.unix
            } else {
                services.net
            };
            let e = if !allowed {
                -1int
            } else {
                -9int
            };
            !allowed || !s.conns.contains_key(fd) ==> {
                &&& writing(s, services, fd, data) matches StepView::Return(v) && v == e
                &&& reading(s, services, fd, max) matches StepView::Return(v) && v == e
                &&& tearing_down(s, services, fd) matches StepView::Return(v) && v == e
            }
        }),
{
}

/// `connect` asks for the very host and port, or path, that the guest gave, changes
/// no socket before that is done, and notes the peer of a datagram socket and of no
/// other one.
pub proof fn law_connect_asks_for_address(
    s: SocketView,
    services: Services,
    fd: i32,
    host: Seq<char>,
    port: u16,
    path: Seq<char>,
)
    requires
        services.net,
        services.policy,
        services.unix,
    ensures
        ({
            let (after, r) = connecting(s, services, fd, Some((host, port)), Some(path));
            &&& s.kind(fd) is None || s.kind(fd) == Some(SockKind::TcpStream) ==> after == s && r
                == StepView::ConnectTcp(host, port)
            &&& s.kind(fd) == Some(SockKind::UnixStream) ==> after == s && r
                == StepView::ConnectUnix(path)
            &&& s.kind(fd) == Some(SockKind::UdpDgram) ==> {
                &&& r == StepView::Return(0)
                &&& after.udp_peers == s.udp_peers.insert(fd, (host, port))
                &&& after == (SocketView { udp_peers: after.udp_peers, ..s })
            }
            &&& s.kind(fd) == Some(SockKind::UnixDgram) ==> {
                &&& r == StepView::Return(0)
                &&& after.unix_peers == s.unix_peers.insert(fd, path)
                &&& after == (SocketView { unix_peers: after.unix_peers, ..s })
            }
        }),
{
}

/// `connect` without an address of the socket's family is `EINVAL`, and of a stream
/// whose coordinator or policy is missing `EPERM`; no socket changes.
pub proof fn law_connect_refusals(
    s: SocketView,
    services: Services,
    fd: i32,
    inet: Option<(Seq<char>, u16)>,
    unix: Option<Seq<char>>,
)
    ensures
        ({
            let (after, r) = connecting(s, services, fd, inet, unix);
            let is_unix = s.kind(fd) == Some(SockKind::UnixStream) || s.kind(fd) == Some(
                SockKind::UnixDgram,
            );
            let refused = match s.kind(fd) {
                Some(SockKind::UdpDgram) => false,
                Some(SockKind::UnixDgram) => false,
                Some(SockKind::UnixStream) => !services.unix,
                _ => !(services.net && services.policy),
            };
            &&& refused ==> after == s && (r matches StepView::Return(v) && v == -1)
            &&& !refused && ((is_unix && unix is None) || (!is_unix && inet is None)) ==> after == s
                && (r matches StepView::Return(v) && v == -22)
        }),
{
}

/// A datagram socket that was connected sends to its peer when the guest names no
/// other address.
pub proof fn law_connected_datagrams_go_to_peer(
    s: SocketView,
    services: Services,
    fd: i32,
    host: Seq<char>,
    port: u16,
    path: Seq<char>,
    data: Seq<u8>,
    id: i32,
)
    requires
        services.dgram,
        services.unix,
        id != -9,
        s.udp_ids.contains_key(fd) && s.udp_ids[fd] == id,
        s.unix_ids.contains_key(fd) && s.unix_ids[fd] == id,
    ensures
        ({
            let after = connecting(s, services, fd, Some((host, port)), Some(path)).0;
            let r = sending(after, services, fd, data, false, None, None);
            &&& s.kind(fd) == Some(SockKind::UdpDgram) ==> r == StepView::SendUdp(
                id,
                host,
                port,
                data,
            )
            &&& s.kind(fd) == Some(SockKind::UnixDgram) ==> r == StepView::SendUnix(id, path, data)
        }),
{
}

/// A UDP socket that is not bound is bound to any port before it sends.
pub proof fn law_unbound_datagram_is_bound(
    s: SocketView,
    services: Services,
    fd: i32,
    data: Seq<u8>,
    named: bool,
    inet: Option<(Seq<char>, u16)>,
    unix: Option<Seq<char>>,
)
    requires
        s.kind(fd) == Some(SockKind::UdpDgram),
        services.dgram,
        !s.udp_ids.contains_key(fd),
    ensures
        sending(s, services, fd, data, named, inet, unix) == StepView::BindUdp("0.0.0.0"@, 0),
{
}

/// `bind` asks for the very port, host and port, or path, that the guest gave. A Unix
/// stream socket only notes its path, which `listen` then listens on.
pub proof fn law_bind_asks_for_address(
    s: SocketView,
    services: Services,
    fd: i32,
    host: Seq<char>,
    port: u16,
    path: Seq<char>,
)
    requires
        services.policy,
        services.dgram,
        services.unix,
        path.len() > 0,
    ensures
        ({
            let (after, r) = binding(s, services, fd, Some((host, port)), Some(path));
            &&& s.kind(fd) is None || s.kind(fd) == Some(SockKind::TcpStream) ==> after == s && r
                == StepView::BindTcp(port)
            &&& s.kind(fd) == Some(SockKind::UdpDgram) ==> after == s && r == StepView::BindUdp(
                host,
                port,
            )
            &&& s.kind(fd) == Some(SockKind::UnixDgram) ==> after == s && r == StepView::BindUnix(
                path,
            )
            &&& s.kind(fd) == Some(SockKind::UnixStream) ==> {
                &&& r == StepView::Return(0)
                &&& after == (SocketView { unix_paths: s.unix_paths.insert(fd, path), ..s })
                &&& listening(after, services, fd) == StepView::ListenUnix(path)
            }
        }),
{
}

/// `bind` without an address of the socket's family is `EINVAL`, and without what the
/// kind of socket needs `EPERM`; no socket changes.
pub proof fn law_bind_refusals(
    s: SocketView,
    services: Services,
    fd: i32,
    inet: Option<(Seq<char>, u16)>,
    unix: Option<Seq<char>>,
)
    ensures
        ({
            let (after, r) = binding(s, services, fd, inet, unix);
            let is_unix = s.kind(fd) == Some(SockKind::UnixStream) || s.kind(fd) == Some(
                SockKind::UnixDgram,
            );
            let refused = match s.kind(fd) {
                Some(SockKind::UdpDgram) => !services.dgram,
                Some(SockKind::UnixDgram) => !services.unix,
                Some(SockKind::UnixStream) => false,
                _ => !services.policy,
            };
            &&& refused ==> after == s && (r matches StepView::Return(v) && v == -1)
            &&& !refused && ((is_unix && unix is None) || (!is_unix && inet is None)) ==> after == s
                && (r matches StepView::Return(v) && v == -22)
        }),
{
}

/// A server that listens is the one that is waited for, and listening again does
/// nothing. Until it listens nothing can be accepted from it.
pub proof fn law_listen_then_accept(s: SocketView, services: Services, fd: i32, server: i32)
    requires
        server >= 0,
        s.kind(fd) == Some(SockKind::UnixStream) ==> services.unix,
        s.kind(fd) != Some(SockKind::UnixStream) ==> services.net && services.policy,
    ensures
        ({
            let after = serving(s, fd, server);
            &&& accepting(after, services, fd) == StepView::Accept(
                if s.kind(fd) == Some(SockKind::UnixStream) {
                    Link::Unix
                } else {
                    Link::Tcp
                },
                server,
            )
            &&& s.kind(fd) != Some(SockKind::UnixStream) ==> listening(after, services, fd)
                == StepView::Return(0)
        }),
        !s.servers.contains_key(fd) ==> (accepting(s, services, fd) matches StepView::Return(v) && v
            == -9),
        !s.servers.contains_key(fd) && s.kind(fd) != Some(SockKind::UnixStream) ==> (listening(
            s,
            services,
            fd,
        ) matches StepView::Return(v) && v == -9),
{
}

/// Connections are accepted in the order in which they came, and those of another
/// server are left alone.
pub proof fn law_connections_queue_up(
    s: SocketView,
    server: i32,
    first: i32,
    second: i32,
    other: i32,
)
    requires
        s.waiting(server).len() == 0,
        other != server,
    ensures
        ({
            let q = s.with_connection(server, first).with_connection(server, second);
            &&& q.waiting(server).len() == 2
            &&& q.waiting(server)[0] == first
            &&& q.waiting(server).skip(1)[0] == second
            &&& q.waiting(other) == s.waiting(other)
        }),
{
}

/// Of the events that a waiting read takes note of, bytes for its connection are
/// buffered behind those that are there, connections to a server queue up, and
/// everything else changes nothing.
pub proof fn law_noted_events(s: SocketView, conn: i32, event: NetEvent)
    ensures
        match event {
            NetEvent::Data { conn: c, payload } => if c == conn {
                match base64_decoded(payload@) {
                    Some(bytes) => noted(s, conn, event) == s.with_data(conn, bytes),
                    None => noted(s, conn, event) == s,
                }
            } else {
                noted(s, conn, event) == s
            },
            NetEvent::Connection { server, conn: c } => noted(s, conn, event).waiting(server)
                == s.waiting(server).push(c),
            _ => noted(s, conn, event) == s,
        },
        ends_stream(conn, event) <==> (event matches NetEvent::End { conn: c } && c == conn) || (
        event matches NetEvent::Close { conn: c } && c == conn),
{
}

/// The peer of an accepted connection reads as 0.0.0.0 with port 0 and length 16, or
/// as an unnamed Unix socket with length 3, where the guest asked for it, gave room
/// inside memory and keeps the two apart. A guest that did not ask is told nothing.
pub proof fn law_peer_reads_as_unknown(
    mem: Seq<u8>,
    link: Link,
    addr_ptr: i32,
    addrlen_ptr: i32,
)
    requires
        addr_ptr as u32 + 16 <= mem.len(),
        addrlen_ptr as u32 + 4 <= mem.len(),
        addrlen_ptr as u32 + 4 <= addr_ptr as u32 || addr_ptr as u32 + 16 <= addrlen_ptr as u32,
    ensures
        ({
            let m = peer_reported(mem, link, addr_ptr, addrlen_ptr);
            &&& m.len() == mem.len()
            &&& addr_ptr == 0 ==> m == mem
            &&& addr_ptr != 0 && link == Link::Tcp ==> {
                let at = addr_ptr as u32 as int;
                &&& m[at] == 2 && m[at + 1] == 0
                &&& forall|i: int| 2 <= i < 16 ==> #[trigger] m[at + i] == 0
            }
            &&& addr_ptr != 0 && link == Link::Unix ==> sockaddr_un_at(m, addr_ptr as u32 as int)
                == Some(Seq::<u8>::empty())
            &&& addr_ptr != 0 && addrlen_ptr != 0 ==> word_at(m, addrlen_ptr as u32 as int) == match link {
                Link::Tcp => 16nat,
                Link::Unix => 3nat,
            }
        }),
{
    if addr_ptr != 0 {
        let at = addr(addr_ptr);
        let a = seq![0u8, 0, 0, 0];
        lemma_unknown_host();
        law_sockaddr_fields(a, 0);
        let name = match link {
            Link::Tcp => sockaddr_in("0.0.0.0"@, 0),
            Link::Unix => seq![1u8, 0u8, 0u8],
        };
        let len: nat = match link {
            Link::Tcp => 16,
            Link::Unix => 3,
        };
        let m = splice(mem, at, name);
        lemma_le_bytes_len(len, 4);
        lemma_word_reads_back(m, addr(addrlen_ptr), len);
        let done = peer_reported(mem, link, addr_ptr, addrlen_ptr);
        assert forall|i: int| 0 <= i < len implies #[trigger] done[at + i] == name[i] by {}
        if link == Link::Tcp {
            assert(done[at + 0] == 2 && done[at + 1] == 0);
            assert forall|i: int| 2 <= i < 16 implies #[trigger] done[at + i] == 0 by {
                if i >= 4 && i < 8 {
                    assert(name.subrange(4, 8)[i - 4] == name[i]);
                }
            }
        } else {
            assert(done[at + 0] == 1 && done[at + 1] == 0 && done[at + 2] == 0);
            law_sun_path_is_read(done, at);
            let path = sockaddr_un_at(done, at)->0;
            if path.len() > 0 {
                assert(path[0] == done[at + 2]);
            }
            assert(path =~= Seq::empty());
        }
    }
}

/// The address of an unknown peer.
proof fn lemma_unknown_host()
    ensures
        crate::socket_abi::ipv4("0.0.0.0"@) == seq![0u8, 0, 0, 0],
{
    reveal_strlit("0.0.0.0");
    reveal_with_fuel(crate::text::decimal, 2);
    let a = seq![0u8, 0, 0, 0];
    law_dotted_round_trip(a);
    assert("0.0.0.0"@ =~= crate::socket_abi::dotted(a));
}

/// A message whose header leaves memory is `EINVAL`, and so is one with a buffer that
/// does; neither is written.
pub proof fn law_message_needs_bounds(
    s: SocketView,
    services: Services,
    mem: Seq<u8>,
    fd: i32,
    msg_ptr: i32,
    list: i32,
    n: i32,
    i: int,
)
    ensures
        msg_ptr as u32 + 16 > mem.len() ==> (message_sent(
            s,
            services,
            mem,
            fd,
            msg_ptr,
        ) matches StepView::Return(v) && v == -22),
        ({
            &&& msg_ptr as u32 + 16 <= mem.len()
            &&& signed_at(mem, msg_ptr as u32 + 8) == list
            &&& signed_at(mem, msg_ptr as u32 + 12) == n
            &&& 0 <= list
            &&& 0 <= i < n
            &&& !buffer_fits(mem, list as int, i)
        }) ==> (message_sent(s, services, mem, fd, msg_ptr) matches StepView::Return(v) && v
            == -22),
{
    if 0 <= i < n && 0 <= list {
        law_gather_needs_bounds(mem, list as int, n as int);
    }
}

} // verus!
