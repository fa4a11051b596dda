//! Socket addresses, socket state and the socket calls.

use afterburner_wasi::socket::{
    SockKind, SocketState, AF_INET, AF_UNIX, SOCK_DGRAM, SOCK_FD_BASE, SOCK_STREAM,
};
use afterburner_wasi::socket_abi::{
    gather_iov, parse_sockaddr_in, parse_sockaddr_un, scatter_iov, write_sockaddr_in,
};
use afterburner_wasi::socket_calls::{
    accept_event, connect_event, finish_bind_tcp, finish_connect, finish_listen, recv_buffered,
    recv_event, store_payload, syscall_bind, syscall_connect, syscall_listen, syscall_recvfrom,
    syscall_sendto, syscall_shutdown, syscall_socket, Link, NetEvent, Services, SocketStep,
};

#[test]
fn parse_sockaddr_in_af_inet() {
    let mut mem = vec![0u8; 32];
    let family: u16 = 2;
    mem[0..2].copy_from_slice(&family.to_le_bytes());
    let port: u16 = 8080;
    mem[2..4].copy_from_slice(&port.to_be_bytes());
    mem[4] = 127;
    mem[5] = 0;
    mem[6] = 0;
    mem[7] = 1;
    let r = parse_sockaddr_in(&mem, 0);
    assert_eq!(r, Some(("127.0.0.1".into(), 8080)));
}

#[test]
fn parse_sockaddr_in_wrong_family() {
    let mut mem = vec![0u8; 32];
    let family: u16 = 10; // AF_INET6
    mem[0..2].copy_from_slice(&family.to_le_bytes());
    assert!(parse_sockaddr_in(&mem, 0).is_none());
}

#[test]
fn parse_sockaddr_in_oob() {
    let mem = vec![0u8; 4]; // too short
    assert!(parse_sockaddr_in(&mem, 0).is_none());
}

#[test]
fn write_and_parse_roundtrip() {
    let mut mem = vec![0u8; 32];
    write_sockaddr_in(&mut mem, 0, "192.168.1.100", 9000);
    let r = parse_sockaddr_in(&mem, 0);
    assert_eq!(r, Some(("192.168.1.100".into(), 9000)));
}

#[test]
fn a_host_that_is_no_dotted_quad_reads_as_loopback() {
    let mut mem = vec![0u8; 16];
    write_sockaddr_in(&mut mem, 0, "1.2.x.3.4", 80);
    assert_eq!(mem, [2, 0, 0, 80, 127, 0, 0, 1, 0, 0, 0, 0, 0, 0, 0, 0]);
    for host in ["", "localhost", "1.2.3", "1.2.3.4.5", "1.2.3.256", "1.2.3.", "1..2.3.4"] {
        write_sockaddr_in(&mut mem, 0, host, 80);
        assert_eq!(&mem[4..8], &[127, 0, 0, 1], "{host}");
    }
    write_sockaddr_in(&mut mem, 0, "10.0.255.7", 80);
    assert_eq!(&mem[4..8], &[10, 0, 255, 7]);
}

/// Bytes laid into buffers that share none are gathered again.
#[test]
fn what_is_scattered_is_gathered() {
    let mut mem = vec![0u8; 64];
    mem[0..4].copy_from_slice(&8u32.to_le_bytes());
    mem[4..8].copy_from_slice(&2i32.to_le_bytes());
    mem[8..12].copy_from_slice(&48i32.to_le_bytes());
    mem[12..16].copy_from_slice(&3i32.to_le_bytes());
    mem[16..20].copy_from_slice(&32i32.to_le_bytes());
    mem[20..24].copy_from_slice(&4i32.to_le_bytes());
    mem[32..36].copy_from_slice(b"wxyz");
    let before = mem.clone();
    assert_eq!(scatter_iov(&mut mem, 0, b"hello"), 5);
    assert_eq!(gather_iov(&mem, 0).unwrap(), b"helloyz");
    assert_eq!(&mem[..32], &before[..32]);
    assert_eq!(scatter_iov(&mut mem, 0, b"much too long"), 7);
    assert_eq!(gather_iov(&mem, 0).unwrap(), b"much to");
}

#[test]
fn socket_state_alloc_fd() {
    let mut s = SocketState::new();
    let fd1: i32 = s.alloc_fd();
    let fd2: i32 = s.alloc_fd();
    assert_eq!(fd1, SOCK_FD_BASE);
    assert_eq!(fd2, SOCK_FD_BASE + 1);
}

#[test]
fn socket_state_push_and_drain() {
    let mut s = SocketState::new();
    s.push_data(1, b"hello ".to_vec());
    s.push_data(1, b"world".to_vec());
    assert!(s.has_buffered(1));
    let got = s.drain_recv(1, 8);
    assert_eq!(got, b"hello wo");
    let rest = s.drain_recv(1, 100);
    assert_eq!(rest, b"rld");
    assert!(!s.has_buffered(1));
}

#[test]
fn gather_iov_collects_buffers() {
    // Two iovec entries point at "hello" and "world".
    let mut mem = vec![0u8; 64];
    mem[0..4].copy_from_slice(&32u32.to_le_bytes());
    mem[4..8].copy_from_slice(&2i32.to_le_bytes());
    mem[32..36].copy_from_slice(&48i32.to_le_bytes());
    mem[36..40].copy_from_slice(&5i32.to_le_bytes());
    mem[40..44].copy_from_slice(&53i32.to_le_bytes());
    mem[44..48].copy_from_slice(&5i32.to_le_bytes());
    mem[48..53].copy_from_slice(b"hello");
    mem[53..58].copy_from_slice(b"world");
    let got = gather_iov(&mem, 0).expect("gather_iov");
    assert_eq!(got, b"helloworld");
}

#[test]
fn scatter_iov_writes_bytes() {
    // Single iovec: base=16, len=10.
    let mut mem = vec![0u8; 32];
    mem[0..4].copy_from_slice(&8u32.to_le_bytes());
    mem[4..8].copy_from_slice(&1i32.to_le_bytes());
    mem[8..12].copy_from_slice(&16i32.to_le_bytes());
    mem[12..16].copy_from_slice(&10i32.to_le_bytes());
    let n: i32 = scatter_iov(&mut mem, 0, b"hello");
    assert_eq!(n, 5);
    assert_eq!(&mem[16..21], b"hello");
}

// ---- calls ------------------------------------------------------------------

fn all() -> Services {
    Services { net: true, policy: true, dgram: true, unix: true }
}

#[test]
fn sockets_have_kinds() {
    let mut s = SocketState::new();
    let fd: i32 = syscall_socket(&mut s, all(), 2, 1);
    assert_eq!(fd, SOCK_FD_BASE);
    assert_eq!(s.fd_kind(fd), Some(SockKind::TcpStream));
    // Neither datagrams nor Unix sockets are supported, and a refusal takes no
    // descriptor.
    assert_eq!(syscall_socket(&mut s, all(), AF_UNIX, SOCK_DGRAM | 0o2000000), -95);
    assert_eq!(syscall_socket(&mut s, all(), AF_UNIX, SOCK_STREAM), -95);
    assert_eq!(syscall_socket(&mut s, all(), AF_INET, SOCK_DGRAM), -95);
    assert_eq!(syscall_socket(&mut s, all(), 10, 1), -95);
    let fd: i32 = syscall_socket(&mut s, all(), 2, 1 | 0o2000000);
    assert_eq!(fd, SOCK_FD_BASE + 1);
    assert_eq!(s.fd_kind(fd), Some(SockKind::TcpStream));
    let none = Services { net: false, policy: true, dgram: true, unix: true };
    assert_eq!(syscall_socket(&mut s, none, 2, 1), -1);
}

#[test]
fn a_connection_is_opened_and_noted() {
    let mut mem = vec![0u8; 64];
    let mut s = SocketState::new();
    let fd: i32 = syscall_socket(&mut s, all(), 2, 1);
    write_sockaddr_in(&mut mem, 16, "10.0.0.7", 80);
    match syscall_connect(&mut s, all(), &mem, fd, 16) {
        SocketStep::ConnectTcp { host, port } => {
            assert_eq!((host.as_str(), port), ("10.0.0.7", 80));
        }
        other => panic!("{other:?}"),
    }
    assert_eq!(finish_connect(&mut s, fd, None), Err(-1));
    assert_eq!(finish_connect(&mut s, fd, Some(-4)), Err(-111));
    assert_eq!(finish_connect(&mut s, fd, Some(4)), Ok(4));
    assert_eq!(s.conn_of(fd), Some(4));
    assert_eq!(connect_event(4, &Some(NetEvent::Connect { conn: 4 })), Some(0));
    assert_eq!(connect_event(4, &Some(NetEvent::Connect { conn: 5 })), None);
    assert_eq!(connect_event(4, &Some(NetEvent::Error { conn: 4 })), Some(-111));
    assert_eq!(connect_event(4, &None), Some(-111));
}

#[test]
fn a_server_binds_listens_and_accepts() {
    let mut mem = vec![0u8; 64];
    let mut s = SocketState::new();
    let fd: i32 = syscall_socket(&mut s, all(), 2, 1);
    write_sockaddr_in(&mut mem, 16, "0.0.0.0", 8000);
    match syscall_bind(&mut s, all(), &mem, fd, 16) {
        SocketStep::BindTcp { port } => assert_eq!(port, 8000),
        other => panic!("{other:?}"),
    }
    assert_eq!(finish_bind_tcp(&mut s, fd, 8000, true), 0);
    match syscall_listen(&s, all(), fd) {
        SocketStep::ListenTcp { port } => assert_eq!(port, 8000),
        other => panic!("{other:?}"),
    }
    assert_eq!(finish_listen(&mut s, fd, Some(11)), 0);
    assert_eq!(s.server_of(fd), Some(11));
    let event = Some(NetEvent::Connection { server: 11, conn: 12 });
    assert_eq!(accept_event(&mut s, 11, event), Some(Ok(12)));
    assert_eq!(accept_event(&mut s, 11, None), Some(Err(-11)));
}

/// No port is taken for an unknown descriptor or for a server.
#[test]
fn a_bound_port_is_listened_on() {
    let mut s = SocketState::new();
    for port in [1u16, 80, 8080, 65535] {
        let fd: i32 = syscall_socket(&mut s, all(), 2, 1);
        assert_eq!(finish_bind_tcp(&mut s, fd, port, true), 0);
        assert_eq!(s.server_of(fd), Some(-(port as i32)));
        match syscall_listen(&s, all(), fd) {
            SocketStep::ListenTcp { port: p } => assert_eq!(p, port),
            other => panic!("{other:?}"),
        }
        assert_eq!(finish_listen(&mut s, fd, Some(0)), 0);
        match syscall_listen(&s, all(), fd) {
            SocketStep::Return(r) => assert_eq!(r, 0),
            other => panic!("{other:?}"),
        }
    }
    // Port 0 counts as listened on, and minus 9 is no port but an errno.
    for (port, answer) in [(0u16, 0), (9, -9)] {
        let fd: i32 = syscall_socket(&mut s, all(), 2, 1);
        assert_eq!(finish_bind_tcp(&mut s, fd, port, true), 0);
        match syscall_listen(&s, all(), fd) {
            SocketStep::Return(r) => assert_eq!(r, answer),
            other => panic!("{other:?}"),
        }
    }
    match syscall_listen(&s, all(), 77) {
        SocketStep::Return(r) => assert_eq!(r, -9),
        other => panic!("{other:?}"),
    }
}

/// What arrives is decoded from base64.
#[test]
fn received_bytes_are_decoded() {
    let mut s = SocketState::new();
    let event = Some(NetEvent::Data { conn: 3, payload: "aGVsbG8=".to_owned() });
    assert_eq!(recv_event(&mut s, 3, 3, event), Some(Ok(b"hel".to_vec())));
    assert_eq!(recv_buffered(&mut s, 3, 16), Some(b"lo".to_vec()));
    assert_eq!(recv_buffered(&mut s, 3, 16), None);
    let bad = Some(NetEvent::Data { conn: 3, payload: "%%%".to_owned() });
    assert_eq!(recv_event(&mut s, 3, 3, bad), None);
    assert_eq!(recv_event(&mut s, 3, 3, None), Some(Err(-11)));
    assert_eq!(recv_event(&mut s, 3, 3, Some(NetEvent::End { conn: 3 })), Some(Ok(Vec::new())));
    store_payload(&mut s, 3, Some(b"x".to_vec()));
    assert!(s.has_buffered(3));
}

#[test]
fn datagrams_are_bound_before_they_are_sent() {
    let mut mem = vec![0u8; 64];
    let mut s = SocketState::new();
    let fd: i32 = s.alloc_fd();
    s.set_kind(fd, SockKind::UdpDgram);
    write_sockaddr_in(&mut mem, 16, "10.1.2.3", 53);
    mem[40..43].copy_from_slice(b"dns");
    match syscall_sendto(&s, all(), &mem, fd, 40, 3, 16) {
        SocketStep::BindUdp { port, .. } => assert_eq!(port, 0),
        other => panic!("{other:?}"),
    }
    s.set_udp(fd, 6);
    match syscall_sendto(&s, all(), &mem, fd, 40, 3, 16) {
        SocketStep::SendUdp { id, host, port, data } => {
            assert_eq!((id, host.as_str(), port), (6, "10.1.2.3", 53));
            assert_eq!(data, b"dns");
        }
        other => panic!("{other:?}"),
    }
}

#[test]
fn an_open_stream_is_read_and_shut_down() {
    let mut s = SocketState::new();
    let fd: i32 = syscall_socket(&mut s, all(), 2, 1);
    s.set_conn(fd, 9);
    match syscall_recvfrom(&s, all(), fd, 100) {
        SocketStep::Receive { link, conn, max } => {
            assert_eq!((link, conn, max), (Link::Tcp, 9, 100));
        }
        other => panic!("{other:?}"),
    }
    match syscall_shutdown(&s, all(), fd) {
        SocketStep::Destroy { link, conn } => assert_eq!((link, conn), (Link::Tcp, 9)),
        other => panic!("{other:?}"),
    }
}

#[test]
fn unix_paths_are_read() {
    let mut mem = vec![0u8; 128];
    mem[0..2].copy_from_slice(&1u16.to_le_bytes());
    mem[2..13].copy_from_slice(b"/tmp/s.sock");
    assert_eq!(parse_sockaddr_un(&mem, 0).as_deref(), Some("/tmp/s.sock"));
}
