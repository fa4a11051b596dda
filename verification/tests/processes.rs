//! Pipes, child processes and threads.

use afterburner_wasi::emscripten_multiprocessing::{
    clone_worker_data, exit_code_of, finish_posix_spawn, finish_spawn, finish_wait4,
    finish_waitid, map_worker_err, posix_spawn_path, spawn_refusal, syscall_pipe,
    thread_worker_data, wait_refusal, ProcessState, SpawnError, WorkerEvent, EAGAIN, EBADF,
    ECHILD, ENOMEM, EPERM, PIPE_FD_BASE,
};
use afterburner_wasi::emscripten_pthread::{
    finish_pthread_create, finish_pthread_join, futex_look, futex_wait, futex_wake, join_ends,
    pthread_create_refusal, pthread_join_refusal, pthread_self, pthread_stubs, FutexStep,
    FutexWake, WAIT_NOT_EQUAL, WAIT_OK, WAIT_TIMED_OUT,
};

// ---- pipes ------------------------------------------------------------------

/// Allocate a pipe pair, write bytes to the write end, read them back from the
/// read end. The bytes must match exactly.
#[test]
fn pipe_write_read_round_trip() {
    let mut state = ProcessState::new();
    let (read_fd, write_fd) = state.alloc_pipe();
    assert!(read_fd >= PIPE_FD_BASE);
    assert!(write_fd > read_fd);
    let payload = b"hello from parent";
    let written: i32 = state.pipe_write(write_fd, payload);
    assert_eq!(
        written,
        payload.len() as i32,
        "write must return byte count"
    );
    let mut buf = vec![0u8; 32];
    let n: i32 = state.pipe_read(read_fd, &mut buf);
    assert_eq!(
        n,
        payload.len() as i32,
        "read must return written byte count"
    );
    assert_eq!(&buf[..n as usize], payload, "round-trip payload mismatch");
}

/// Reading from the write end returns EBADF (wrong direction).
#[test]
fn pipe_read_from_write_end_is_ebadf() {
    let mut state = ProcessState::new();
    let (_read_fd, write_fd) = state.alloc_pipe();
    let mut buf = [0u8; 8];
    let rc: i32 = state.pipe_read(write_fd, &mut buf);
    assert_eq!(rc, EBADF, "reading from write-end must return EBADF");
}

/// Writing to the read end returns EBADF (wrong direction).
#[test]
fn pipe_write_to_read_end_is_ebadf() {
    let mut state = ProcessState::new();
    let (read_fd, _write_fd) = state.alloc_pipe();
    let rc: i32 = state.pipe_write(read_fd, b"oops");
    assert_eq!(rc, EBADF, "writing to read-end must return EBADF");
}

/// is_pipe_fd returns true for both ends of an allocated pair.
#[test]
fn is_pipe_fd_recognizes_both_ends() {
    let mut state = ProcessState::new();
    let (read_fd, write_fd) = state.alloc_pipe();
    assert!(state.is_pipe_fd(read_fd));
    assert!(state.is_pipe_fd(write_fd));
    assert!(!state.is_pipe_fd(99));
}

/// Partial reads drain the buffer incrementally.
#[test]
fn pipe_partial_reads_drain_buffer() {
    let mut state = ProcessState::new();
    let (read_fd, write_fd) = state.alloc_pipe();
    state.pipe_write(write_fd, b"abcdefgh");
    let mut first = [0u8; 4];
    let n1: i32 = state.pipe_read(read_fd, &mut first);
    assert_eq!(n1, 4);
    assert_eq!(&first, b"abcd");
    let mut second = [0u8; 4];
    let n2: i32 = state.pipe_read(read_fd, &mut second);
    assert_eq!(n2, 4);
    assert_eq!(&second, b"efgh");
    let n3: i32 = state.pipe_read(read_fd, &mut second);
    assert_eq!(n3, 0, "empty buffer must return 0");
}

/// Allocate two independent pipe pairs and verify their buffers do not mix.
#[test]
fn multiple_pipes_are_independent() {
    let mut state = ProcessState::new();
    let (r1, w1) = state.alloc_pipe();
    let (r2, w2) = state.alloc_pipe();
    state.pipe_write(w1, b"pipe-one");
    state.pipe_write(w2, b"pipe-two");
    let mut b1 = [0u8; 32];
    let n1: i32 = state.pipe_read(r1, &mut b1);
    assert_eq!(&b1[..n1 as usize], b"pipe-one");
    let mut b2 = [0u8; 32];
    let n2: i32 = state.pipe_read(r2, &mut b2);
    assert_eq!(&b2[..n2 as usize], b"pipe-two");
}

#[test]
fn the_pipe_call_tells_both_ends() {
    let mut mem = vec![0u8; 64];
    let mut state: Option<ProcessState> = None;
    assert_eq!(syscall_pipe(false, &mut state, &mut mem, 8), EPERM);
    assert!(state.is_none());
    assert_eq!(syscall_pipe(true, &mut state, &mut mem, 8), 0);
    let r = i32::from_le_bytes(mem[8..12].try_into().unwrap());
    let w = i32::from_le_bytes(mem[12..16].try_into().unwrap());
    assert_eq!((r, w), (PIPE_FD_BASE, PIPE_FD_BASE + 1));
}

// ---- children ---------------------------------------------------------------

/// register_child + has_child + remove_child lifecycle.
#[test]
fn child_pid_lifecycle() {
    let mut state = ProcessState::new();
    assert!(!state.has_child(42));
    state.register_child(42);
    assert!(state.has_child(42));
    assert!(state.remove_child(42));
    assert!(!state.has_child(42));
    assert!(!state.remove_child(42));
}

#[test]
fn map_worker_err_depth_and_concurrency_give_eagain() {
    assert_eq!(map_worker_err(SpawnError::Depth), EAGAIN);
    assert_eq!(map_worker_err(SpawnError::Concurrency), EAGAIN);
}

#[test]
fn map_worker_err_permission_gives_eperm() {
    assert_eq!(map_worker_err(SpawnError::Permission), EPERM);
}

#[test]
fn map_worker_err_other_codes_give_enomem() {
    assert_eq!(map_worker_err(SpawnError::Spawn), ENOMEM);
    assert_eq!(map_worker_err(SpawnError::Other), ENOMEM);
    assert_eq!(map_worker_err(SpawnError::Path), ENOMEM);
}

#[test]
fn a_spawned_child_can_be_waited_for() {
    let mut mem = vec![0u8; 64];
    let mut state: Option<ProcessState> = None;
    assert_eq!(spawn_refusal(false, true), Some(EPERM));
    assert!(spawn_refusal(true, false).is_some());
    assert_eq!(spawn_refusal(true, true), None);
    assert_eq!(finish_spawn(&mut state, Ok(7)), 7);
    assert_eq!(finish_spawn(&mut state, Err(SpawnError::Depth)), EAGAIN);
    assert!(state.as_ref().unwrap().has_child(7));
    assert_eq!(wait_refusal(true, &state, 7), None);
    assert_eq!(wait_refusal(true, &state, 8), Some(ECHILD));
    assert_eq!(exit_code_of(WorkerEvent::Exit { worker_id: 7, code: 3 }, 7), Some(3));
    assert_eq!(exit_code_of(WorkerEvent::Exit { worker_id: 8, code: 3 }, 7), None);
    assert_eq!(exit_code_of(WorkerEvent::Other, 7), None);
    assert_eq!(finish_wait4(&mut state, &mut mem, 7, 16, 3), 7);
    assert_eq!(i32::from_le_bytes(mem[16..20].try_into().unwrap()), 3 << 8);
    assert!(!state.as_ref().unwrap().has_child(7));
}

#[test]
fn waitid_answers_zero_and_forgets_the_child() {
    let mut state: Option<ProcessState> = None;
    finish_spawn(&mut state, Ok(9));
    let rc: i32 = finish_waitid(&mut state, 9);
    assert_eq!(rc, 0);
    assert!(!state.as_ref().unwrap().has_child(9));
}

#[test]
fn posix_spawn_tells_the_pid() {
    let mut mem = vec![0u8; 64];
    mem[32..38].copy_from_slice(b"/a.py\0");
    assert_eq!(posix_spawn_path(true, true, &mem, 32), Ok("/a.py".to_owned()));
    assert_eq!(posix_spawn_path(false, true, &mem, 32), Err(EPERM));
    let mut state: Option<ProcessState> = None;
    assert_eq!(finish_posix_spawn(&mut state, &mut mem, 8, Ok(5)), 0);
    assert_eq!(i32::from_le_bytes(mem[8..12].try_into().unwrap()), 5);
}

#[test]
fn worker_data_is_json() {
    let text = clone_worker_data(17, -4);
    let value: serde_json::Value = serde_json::from_str(&text).unwrap();
    assert_eq!(value["fn_ptr"].as_i64(), Some(17));
    assert_eq!(value["arg"].as_i64(), Some(-4));
    let text = thread_worker_data(21, 22);
    let value: serde_json::Value = serde_json::from_str(&text).unwrap();
    assert_eq!(value["start_fn"].as_i64(), Some(21));
    assert_eq!(value["arg"].as_i64(), Some(22));
}

// ---- threads ----------------------------------------------------------------

/// A wait whose expected value differs from the word returns at once.
#[test]
fn sab_futex_not_equal_returns_immediately() {
    let mut mem = vec![0u8; 64];
    mem[0..4].copy_from_slice(&5u32.to_le_bytes());
    let step = futex_wait(&mem, 0, 99, 10, true);
    assert!(
        matches!(step, FutexStep::Return(v) if v == WAIT_NOT_EQUAL),
        "mismatched expected must return WAIT_NOT_EQUAL"
    );
}

/// A word that never changes times out once the time is over, not before.
#[test]
fn sab_futex_timeout_fires() {
    let mem = vec![0u8; 64];
    assert!(matches!(futex_wait(&mem, 0, 0, 20, true), FutexStep::Poll(20)));
    assert_eq!(futex_look(0, 0, false), None);
    assert_eq!(futex_look(0, 0, true), Some(WAIT_TIMED_OUT));
}

#[test]
fn a_changed_word_ends_the_wait() {
    let mem = vec![0u8; 64];
    assert_eq!(futex_look(99, 0, false), Some(WAIT_OK));
    assert_eq!(futex_look(99, 0, true), Some(WAIT_OK));
    assert!(matches!(futex_wait(&mem, 0, 0, -1, true), FutexStep::Park));
    assert!(matches!(futex_wait(&mem, 0, 0, -1, false), FutexStep::Return(0)));
    assert!(matches!(futex_wait(&mem, 62, 0, 5, true), FutexStep::Return(-22)));
    assert_eq!(futex_wake(&mem, 0, 1), (FutexWake::One, 1));
    assert_eq!(futex_wake(&mem, 0, 3), (FutexWake::Everybody, 3));
    assert_eq!(futex_wake(&mem, 62, 1), (FutexWake::Nobody, 0));
}

#[test]
fn a_thread_is_created_and_joined() {
    let mut mem = vec![0xffu8; 64];
    assert_eq!(pthread_create_refusal(false, true), Some(EAGAIN));
    assert_eq!(pthread_create_refusal(true, true), None);
    assert!(pthread_create_refusal(true, false).is_some());
    assert_eq!(finish_pthread_create(&mut mem, 8, Ok(3)), 0);
    assert_eq!(u32::from_le_bytes(mem[8..12].try_into().unwrap()), 3);
    assert_eq!(finish_pthread_create(&mut mem, 8, Err(SpawnError::Depth)), EAGAIN);
    assert_eq!(pthread_join_refusal(true), None);
    assert!(join_ends(3, Some(3)));
    assert!(!join_ends(3, Some(4)));
    assert_eq!(finish_pthread_join(&mut mem, 16), 0);
    assert_eq!(u32::from_le_bytes(mem[16..20].try_into().unwrap()), 0);
    assert_eq!(pthread_self(Some(6)), 6);
    assert!(pthread_stubs().iter().any(|s| s.name.contains("pthread")));
}
