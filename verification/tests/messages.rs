//! Socket calls that accept, and that send and receive messages.

use afterburner_wasi::emscripten_mechanical::ThrowLog;
use afterburner_wasi::emscripten_sidemodule::{SideModuleHandle, SideModuleRegistry};
use afterburner_wasi::socket::{SockKind, SocketState, EBADF, EINVAL, EPERM};
use afterburner_wasi::socket_abi::write_sockaddr_in;
use afterburner_wasi::socket_calls::{
    accept_event, accept_waiting, connect_event, finish_accept, finish_auto_bind, finish_bind_udp,
    finish_bind_unix, finish_recvfrom, finish_recvmsg, recv_event, syscall_accept4,
    syscall_recvmsg, syscall_sendmsg, syscall_sendto, syscall_socket, Link, NetEvent, Services, SocketStep,
};

fn all() -> Services {
    Services { net: true, policy: true, dgram: true, unix: true }
}

fn put(mem: &mut [u8], at: usize, v: u32) {
    mem[at..at + 4].copy_from_slice(&v.to_le_bytes());
}

/// A message header at 0 with two buffers, at 100 and 110.
fn message(first: u32, second: u32) -> Vec<u8> {
    let mut mem = vec![0u8; 128];
    put(&mut mem, 8, 32);
    put(&mut mem, 12, 2);
    put(&mut mem, 32, 100);
    put(&mut mem, 36, first);
    put(&mut mem, 40, 110);
    put(&mut mem, 44, second);
    mem
}

#[test]
fn a_server_hands_out_connections_in_order() {
    let mut s = SocketState::new();
    let fd = syscall_socket(&mut s, all(), 2, 1);
    match syscall_accept4(&s, all(), fd) {
        SocketStep::Return(e) => assert_eq!(e, EBADF, "not listening"),
        other => panic!("{other:?}"),
    }
    s.set_server(fd, 11);
    match syscall_accept4(&s, all(), fd) {
        SocketStep::Accept { link, server } => assert_eq!((link, server), (Link::Tcp, 11)),
        other => panic!("{other:?}"),
    }
    match syscall_accept4(&s, Services { net: false, ..all() }, fd) {
        SocketStep::Return(e) => assert_eq!(e, EPERM),
        other => panic!("{other:?}"),
    }
    // A connection that came in while another call waited is handed out first.
    let early = Some(NetEvent::Connection { server: 11, conn: 5 });
    assert_eq!(recv_event(&mut s, 9, 10, early), None);
    assert_eq!(accept_waiting(&mut s, 11), Some(5));
    assert_eq!(accept_waiting(&mut s, 11), None);
    let other = Some(NetEvent::Connection { server: 12, conn: 6 });
    assert_eq!(accept_event(&mut s, 11, other), None);
    let data = Some(NetEvent::Data { conn: 9, payload: "eA==".to_owned() });
    assert_eq!(accept_event(&mut s, 11, data), None);
    assert_eq!(s.drain_recv(9, 10), b"x");
    let mine = Some(NetEvent::Connection { server: 11, conn: 7 });
    assert_eq!(accept_event(&mut s, 11, mine), Some(Ok(7)));
}

#[test]
fn an_accepted_connection_has_a_descriptor_and_an_unknown_peer() {
    let mut s = SocketState::new();
    let mut mem = vec![0xffu8; 64];
    let fd = finish_accept(&mut s, &mut mem, Link::Tcp, 5, 8, 40);
    assert_eq!(fd, 1024);
    assert_eq!(s.conn_of(fd), Some(5));
    assert_eq!(&mem[8..24], &[2, 0, 0, 0, 0, 0, 0, 0, 0, 0, 0, 0, 0, 0, 0, 0]);
    assert_eq!(&mem[40..44], &[16, 0, 0, 0]);
    let fd = finish_accept(&mut s, &mut mem, Link::Unix, 6, 8, 40);
    assert_eq!(fd, 1025);
    assert_eq!(&mem[8..11], &[1, 0, 0]);
    assert_eq!(&mem[40..44], &[3, 0, 0, 0]);
    let before = mem.clone();
    finish_accept(&mut s, &mut mem, Link::Tcp, 7, 0, 40);
    assert_eq!(mem, before);
}

#[test]
fn a_message_is_gathered_from_its_buffers() {
    let mut s = SocketState::new();
    let fd = syscall_socket(&mut s, all(), 2, 1);
    let mut mem = message(5, 6);
    mem[100..105].copy_from_slice(b"hello");
    mem[110..116].copy_from_slice(b" world");
    match syscall_sendmsg(&s, all(), &mem, fd, 0) {
        SocketStep::Return(e) => assert_eq!(e, EBADF, "not connected"),
        other => panic!("{other:?}"),
    }
    s.set_conn(fd, 3);
    match syscall_sendmsg(&s, all(), &mem, fd, 0) {
        SocketStep::Write { link, conn, data, count } => {
            assert_eq!((link, conn, count), (Link::Tcp, 3, 11));
            assert_eq!(data, b"hello world");
        }
        other => panic!("{other:?}"),
    }
    match syscall_sendmsg(&s, all(), &mem, fd, 126) {
        SocketStep::Return(e) => assert_eq!(e, EINVAL, "header outside memory"),
        other => panic!("{other:?}"),
    }
}

#[test]
fn a_received_message_is_laid_into_its_buffers() {
    let mut s = SocketState::new();
    let fd = syscall_socket(&mut s, all(), 2, 1);
    s.set_conn(fd, 3);
    let mut mem = message(4, 8);
    match syscall_recvmsg(&s, all(), &mem, fd, 0) {
        SocketStep::Receive { link, conn, max } => {
            assert_eq!((link, conn, max), (Link::Tcp, 3, 12));
        }
        other => panic!("{other:?}"),
    }
    assert_eq!(finish_recvmsg(&mut mem, 0, Ok(b"abcdef".to_vec())), 6);
    assert_eq!(&mem[100..104], b"abcd");
    assert_eq!(&mem[110..112], b"ef");
    assert_eq!(finish_recvmsg(&mut mem, 0, Ok(Vec::new())), 0);
    assert_eq!(finish_recvmsg(&mut mem, 0, Err(-11)), -11);
}

#[test]
fn a_received_datagram_is_cut_to_the_buffer() {
    let mut mem = vec![0u8; 16];
    assert_eq!(finish_recvfrom(&mut mem, 4, 3, Ok(b"abcdef".to_vec())), 3);
    assert_eq!(&mem[4..8], b"abc\0");
    assert_eq!(finish_recvfrom(&mut mem, 4, 3, Err(-11)), -11);
    assert_eq!(finish_recvfrom(&mut mem, 4, 3, Ok(Vec::new())), 0);
    // There is no room, and the count is told all the same.
    assert_eq!(finish_recvfrom(&mut mem, 15, 3, Ok(b"abc".to_vec())), 3);
    assert_eq!(mem[15], 0);
}

#[test]
fn a_failed_bind_is_refused() {
    let mut s = SocketState::new();
    assert_eq!(finish_bind_udp(&mut s, 1024, -1), EINVAL);
    assert_eq!(s.udp_of(1024), None);
    assert_eq!(finish_bind_udp(&mut s, 1024, 4), 0);
    assert_eq!(s.udp_of(1024), Some(4));
    assert_eq!(finish_bind_unix(&mut s, 1025, -1), EINVAL);
    assert_eq!(finish_bind_unix(&mut s, 1025, 8), 0);
    assert_eq!(s.unix_dgram_of(1025), Some(8));
}

#[test]
fn an_unbound_datagram_socket_is_bound_before_it_sends() {
    let mut s = SocketState::new();
    let mut mem = vec![0u8; 64];
    mem[40..43].copy_from_slice(b"hey");
    write_sockaddr_in(&mut mem, 0, "10.0.0.9", 53);
    s.set_kind(1024, SockKind::UdpDgram);
    match syscall_sendto(&s, all(), &mem, 1024, 40, 3, 0) {
        SocketStep::BindUdp { host, port } => assert_eq!((host.as_str(), port), ("0.0.0.0", 0)),
        other => panic!("{other:?}"),
    }
    match finish_auto_bind(&mut s, all(), &mem, 1024, 40, 3, 0, -1) {
        SocketStep::Return(e) => assert_eq!(e, EINVAL),
        other => panic!("{other:?}"),
    }
    assert_eq!(s.udp_of(1024), None);
    // Bound, but nobody to send to.
    match finish_auto_bind(&mut s, all(), &mem, 1024, 40, 3, 0, 6) {
        SocketStep::Return(e) => assert_eq!(e, EINVAL),
        other => panic!("{other:?}"),
    }
    assert_eq!(s.udp_of(1024), Some(6));
    mem.copy_within(0..16, 16);
    match finish_auto_bind(&mut s, all(), &mem, 1024, 40, 3, 16, 7) {
        SocketStep::SendUdp { id, host, port, data } => {
            assert_eq!((id, host.as_str(), port), (7, "10.0.0.9", 53));
            assert_eq!(data, b"hey");
        }
        other => panic!("{other:?}"),
    }
}

#[test]
fn a_receive_waits_for_its_own_bytes() {
    let mut s = SocketState::new();
    let foreign = Some(NetEvent::Data { conn: 4, payload: "eA==".to_owned() });
    assert_eq!(recv_event(&mut s, 3, 10, foreign), None);
    assert!(!s.has_buffered(4));
    let empty = Some(NetEvent::Data { conn: 3, payload: "".to_owned() });
    assert_eq!(recv_event(&mut s, 3, 10, empty), None);
    let closed = Some(NetEvent::Close { conn: 4 });
    assert_eq!(recv_event(&mut s, 3, 10, closed), None);
    let own = Some(NetEvent::Data { conn: 3, payload: "eHk=".to_owned() });
    assert_eq!(recv_event(&mut s, 3, 10, own), Some(Ok(b"xy".to_vec())));
    let closed = Some(NetEvent::Close { conn: 3 });
    assert_eq!(recv_event(&mut s, 3, 10, closed), Some(Ok(Vec::new())));
}

#[test]
fn a_connection_is_waited_for() {
    assert_eq!(connect_event(3, &Some(NetEvent::Connect { conn: 3 })), Some(0));
    assert_eq!(connect_event(3, &Some(NetEvent::Connect { conn: 4 })), None);
    assert_eq!(connect_event(3, &Some(NetEvent::Error { conn: 3 })), Some(-111));
    assert_eq!(connect_event(3, &Some(NetEvent::Close { conn: 3 })), Some(EBADF));
    assert_eq!(connect_event(3, &Some(NetEvent::Other)), None);
    assert_eq!(connect_event(3, &None), Some(-111));
}

#[test]
fn a_thrown_exception_is_named_by_its_type() {
    let mut log = ThrowLog::new();
    let mut mem = vec![0u8; 64];
    put(&mut mem, 12, 32);
    mem[32..36].copy_from_slice(b"1Ex\0");
    log.cxa_throw(&mem, 0x99, 8);
    assert_eq!(log.last(), Some((1, "1Ex".to_owned())));
    assert_eq!(log.matching_catch(), 0x99);
    log.cxa_throw(&mem, 0x9a, 60);
    assert_eq!(log.last(), Some((2, "<name_ptr=0x0 out of bounds>".to_owned())));
    put(&mut mem, 12, 0x4000);
    log.cxa_throw(&mem, 0x9b, 8);
    assert_eq!(log.last(), Some((3, "<name_ptr=0x4000 out of bounds>".to_owned())));
}

#[test]
fn a_loaded_module_can_be_changed_through_its_handle() {
    let mut reg = SideModuleRegistry::new();
    assert!(reg.is_empty());
    let handle = SideModuleHandle { instance: 2, func_table_slots: Vec::new() };
    let idx = reg.insert("/lib/a.so".to_owned(), handle);
    assert!(reg.get_by_ptr_mut(64).is_none());
    reg.map_ptr(64, idx);
    if let Some(h) = reg.get_by_ptr_mut(64) {
        h.func_table_slots.push(("f".to_owned(), 9));
    }
    assert_eq!(reg.get_by_ptr(64).unwrap().slot("f"), Some(9));
    reg.set_slot(64, "f".to_owned(), 10);
    assert_eq!(reg.get_by_ptr(64).unwrap().slot("f"), Some(10));
    assert_eq!(reg.find_by_path("a.so").unwrap().0, 0);
    assert!(reg.find_by_path("b.so").is_none());
}
