//! Pipes and child processes of a run.
//!
//! `os.pipe()` gives a pair of descriptors with a shared byte queue. Child
//! processes are worker instances that the embedding spawns; the guest sees a
//! worker's id as its process id. Starting a process or a pipe takes the
//! `child_process` grant.

use std::collections::{HashMap, HashSet, VecDeque};

use vstd::prelude::*;

use crate::bytes::{
    addr, addr_of, guest_range, in_range, law_signed_reads_back, law_splice_reads_back, le_bytes,
    lemma_le_bytes_len, signed_at, splice, u32_bytes, write_at, write_u32,
};
use crate::emscripten_mechanical::{cstr_at, read_cstr};
use crate::text::{decimal_signed, text_before, utf8_lossy};

verus! {

broadcast use vstd::std_specs::hash::group_hash_axioms;

/// Operation not permitted.
pub const EPERM: i32 = -1;

/// Resource temporarily unavailable.
pub const EAGAIN: i32 = -11;

/// Cannot allocate resource.
pub const ENOMEM: i32 = -12;

/// Invalid argument.
pub const EINVAL: i32 = -22;

/// Bad file descriptor.
pub const EBADF: i32 = -9;

/// No child processes.
pub const ECHILD: i32 = -10;

/// First pipe descriptor: well above file and socket descriptors, so that a pipe
/// never aliases one of those.
pub const PIPE_FD_BASE: i32 = 4096;

/// Direction of a pipe endpoint.
#[derive(Debug, Clone, Copy, PartialEq, Eq, Structural)]
pub enum PipeEnd {
    Read,
    Write,
}

/// One endpoint of a pipe. Both endpoints of a pair carry the same `pipe_id`.
#[derive(Debug, Clone, Copy)]
pub struct PipeHandle {
    pub end: PipeEnd,
    pub pipe_id: u32,
}

/// Pipe and child-process state of a run.
pub struct ProcessState {
    next_fd: i32,
    next_pipe_id: u32,
    pipes: HashMap<i32, PipeHandle>,
    pipe_bufs: HashMap<u32, VecDeque<u8>>,
    child_pids: HashSet<i32>,
}

/// What the pipe and child-process state holds.
#[verifier::ext_equal]
pub struct ProcessView {
    /// The descriptor that the next pipe takes for reading; the one after it is
    /// for writing.
    pub next_fd: i32,
    /// The id of the next pipe.
    pub next_pipe_id: u32,
    /// The open pipe endpoints.
    pub pipes: Map<i32, PipeHandle>,
    /// The bytes waiting in each pipe, oldest first.
    pub bufs: Map<u32, Seq<u8>>,
    /// The known child processes.
    pub children: Set<i32>,
}

impl View for ProcessState {
    type V = ProcessView;

    closed spec fn view(&self) -> ProcessView {
        ProcessView {
            next_fd: self.next_fd,
            next_pipe_id: self.next_pipe_id,
            pipes: self.pipes@,
            bufs: buf_views(self.pipe_bufs@),
            children: self.child_pids@,
        }
    }
}

spec fn buf_views(m: Map<u32, VecDeque<u8>>) -> Map<u32, Seq<u8>> {
    Map::new(|k: u32| m.contains_key(k), |k: u32| m[k]@)
}

/// The state of a run without pipes or children.
pub open spec fn no_processes() -> ProcessView {
    ProcessView {
        next_fd: PIPE_FD_BASE,
        next_pipe_id: 1,
        pipes: Map::empty(),
        bufs: Map::empty(),
        children: Set::empty(),
    }
}

/// The state that `s` stands for: none has been needed yet, or it exists.
pub open spec fn processes(s: Option<ProcessState>) -> ProcessView {
    match s {
        Some(p) => p@,
        None => no_processes(),
    }
}

impl ProcessView {
    /// The state after one more pipe was made.
    pub open spec fn with_pipe(self) -> ProcessView {
        let id = self.next_pipe_id;
        let read_fd = self.next_fd;
        let write_fd = self.next_fd.wrapping_add(1);
        ProcessView {
            next_fd: write_fd.wrapping_add(1),
            next_pipe_id: id.wrapping_add(1),
            pipes: self.pipes.insert(read_fd, PipeHandle { end: PipeEnd::Read, pipe_id: id }).insert(
                write_fd,
                PipeHandle { end: PipeEnd::Write, pipe_id: id },
            ),
            bufs: self.bufs.insert(id, Seq::empty()),
            ..self
        }
    }

    /// Whether `fd` is the given end of a pipe.
    pub open spec fn is_end(self, fd: i32, end: PipeEnd) -> bool {
        self.pipes.contains_key(fd) && self.pipes[fd].end == end
    }

    /// The bytes waiting in the pipe that `fd` belongs to.
    pub open spec fn waiting(self, fd: i32) -> Seq<u8> {
        let id = self.pipes[fd].pipe_id;
        if self.bufs.contains_key(id) {
            self.bufs[id]
        } else {
            Seq::empty()
        }
    }

    /// The state with other bytes waiting in the pipe that `fd` belongs to.
    pub open spec fn with_waiting(self, fd: i32, bytes: Seq<u8>) -> ProcessView {
        ProcessView { bufs: self.bufs.insert(self.pipes[fd].pipe_id, bytes), ..self }
    }

    /// How many bytes a read of `room` bytes from `fd` gives.
    pub open spec fn readable(self, fd: i32, room: nat) -> nat {
        if room <= self.waiting(fd).len() {
            room
        } else {
            self.waiting(fd).len()
        }
    }

    /// The state after `n` bytes were taken from the pipe that `fd` belongs to.
    pub open spec fn drained(self, fd: i32, n: nat) -> ProcessView {
        if self.bufs.contains_key(self.pipes[fd].pipe_id) {
            self.with_waiting(fd, self.waiting(fd).skip(n as int))
        } else {
            self
        }
    }

    /// Writing `data` to `fd`: the state afterwards, and the length or the errno.
    pub open spec fn written(self, fd: i32, data: Seq<u8>) -> (ProcessView, i32) {
        if self.is_end(fd, PipeEnd::Write) {
            (self.with_waiting(fd, self.waiting(fd) + data), data.len() as i32)
        } else {
            (self, EBADF)
        }
    }

    /// Reading up to `room` bytes from `fd`: the state afterwards, and the bytes or the
    /// errno.
    pub open spec fn taken(self, fd: i32, room: nat) -> (ProcessView, Result<Seq<u8>, i32>) {
        if self.is_end(fd, PipeEnd::Read) {
            let n = self.readable(fd, room);
            (self.drained(fd, n), Ok(self.waiting(fd).take(n as int)))
        } else {
            (self, Err(EBADF))
        }
    }

    /// The state with one more known child.
    pub open spec fn with_child(self, pid: i32) -> ProcessView {
        ProcessView { children: self.children.insert(pid), ..self }
    }

    /// The state with one child forgotten.
    pub open spec fn without_child(self, pid: i32) -> ProcessView {
        ProcessView { children: self.children.remove(pid), ..self }
    }

    /// No endpoint has a number that is still to be handed out, and no buffer an
    /// id that is.
    pub open spec fn fresh(self) -> bool {
        &&& PIPE_FD_BASE <= self.next_fd
        &&& forall|fd: i32|
            self.pipes.contains_key(fd) ==> PIPE_FD_BASE <= fd < self.next_fd
                && self.pipes[fd].pipe_id < self.next_pipe_id
    }
}

/// Until the numbers run out, the endpoints of a new pipe are new, lie above
/// every other kind of descriptor, and the pipe starts out empty.
pub proof fn law_new_pipe_is_fresh(p: ProcessView)
    requires
        p.fresh(),
        p.next_fd < i32::MAX - 1,
        p.next_pipe_id < u32::MAX,
    ensures
        p.with_pipe().fresh(),
        !p.pipes.contains_key(p.next_fd),
        !p.pipes.contains_key((p.next_fd + 1) as i32),
        p.with_pipe().is_end(p.next_fd, PipeEnd::Read),
        p.with_pipe().is_end((p.next_fd + 1) as i32, PipeEnd::Write),
        p.with_pipe().waiting(p.next_fd) == Seq::<u8>::empty(),
        forall|fd: i32| #[trigger]
            p.pipes.contains_key(fd) ==> p.with_pipe().waiting(fd) == p.waiting(fd),
{
}

/// What is written to a pipe is read back in order: bytes come out behind those
/// that were waiting before, and a read takes them from the front.
pub proof fn law_pipe_is_fifo(p: ProcessView, w: i32, r: i32, data: Seq<u8>, n: nat)
    requires
        p.is_end(w, PipeEnd::Write),
        p.is_end(r, PipeEnd::Read),
        p.pipes[w].pipe_id == p.pipes[r].pipe_id,
        n <= p.waiting(r).len() + data.len(),
    ensures
        ({
            let q = p.with_waiting(w, p.waiting(w) + data);
            &&& q.waiting(r) == p.waiting(r) + data
            &&& q.waiting(r).take(n as int) + q.drained(r, n).waiting(r) == q.waiting(r)
        }),
{
    let q = p.with_waiting(w, p.waiting(w) + data);
    let s = q.waiting(r);
    assert(s.take(n as int) + s.skip(n as int) =~= s);
}

/// What is written to an empty pipe comes out of its other end: all of it into a buffer
/// that is large enough, in two pieces into two buffers, and then nothing more. Only the
/// write end can be written to and only the read end read from; else it is `EBADF` and
/// nothing changes.
pub proof fn law_pipe_gives_what_was_written(
    p: ProcessView,
    w: i32,
    r: i32,
    data: Seq<u8>,
    room: nat,
)
    requires
        p.is_end(w, PipeEnd::Write),
        p.is_end(r, PipeEnd::Read),
        p.pipes[w].pipe_id == p.pipes[r].pipe_id,
        p.waiting(r).len() == 0,
        data.len() <= i32::MAX,
    ensures
        ({
            let (q, n) = p.written(w, data);
            let (first, a) = q.taken(r, room);
            let (second, b) = first.taken(r, data.len());
            &&& n == data.len()
            &&& a is Ok && b is Ok
            &&& a->Ok_0 + b->Ok_0 == data
            &&& room <= data.len() ==> a->Ok_0.len() == room
            &&& room >= data.len() ==> a->Ok_0 == data
            &&& second.taken(r, room).1 == Ok::<Seq<u8>, i32>(Seq::empty())
            &&& p.written(r, data).0 == p && p.written(r, data).1 == -9
            &&& p.taken(w, room).0 == p && (p.taken(w, room).1 matches Err(e) && e == -9)
        }),
{
    let (q, n) = p.written(w, data);
    let (first, a) = q.taken(r, room);
    let (second, b) = first.taken(r, data.len());
    assert(q.waiting(r) =~= data);
    assert(a->Ok_0 + b->Ok_0 =~= data);
    assert(room >= data.len() ==> a->Ok_0 =~= data);
    assert(second.taken(r, room).1->Ok_0 =~= Seq::<u8>::empty());
}

/// Writing to one pipe leaves the others alone.
pub proof fn law_pipes_are_independent(p: ProcessView, w: i32, other: i32, data: Seq<u8>)
    requires
        p.is_end(w, PipeEnd::Write),
        p.pipes.contains_key(other),
        p.pipes[w].pipe_id != p.pipes[other].pipe_id,
    ensures
        p.with_waiting(w, p.waiting(w) + data).waiting(other) == p.waiting(other),
{
}

impl ProcessState {
    /// A state without pipes or children.
    pub fn new() -> (r: Self)
        ensures
            r@ == no_processes(),
            r@.fresh(),
    {
        let r = ProcessState {
            next_fd: PIPE_FD_BASE,
            next_pipe_id: 1,
            pipes: HashMap::new(),
            pipe_bufs: HashMap::new(),
            child_pids: HashSet::new(),
        };
        assert(r@ =~= no_processes());
        r
    }

    /// Allocate a new pipe pair. Returns (read_fd, write_fd).
    pub fn alloc_pipe(&mut self) -> (r: (i32, i32))
        ensures
            r.0 == old(self)@.next_fd,
            r.1 == old(self)@.next_fd.wrapping_add(1),
            final(self)@ == old(self)@.with_pipe(),
    {
        let pipe_id: u32 = self.next_pipe_id;
        self.next_pipe_id = pipe_id.wrapping_add(1);
        let empty: VecDeque<u8> = VecDeque::new();
        self.pipe_bufs.insert(pipe_id, empty);
        let read_fd: i32 = self.next_fd;
        let write_fd: i32 = read_fd.wrapping_add(1);
        self.next_fd = write_fd.wrapping_add(1);
        self.pipes.insert(read_fd, PipeHandle { end: PipeEnd::Read, pipe_id });
        self.pipes.insert(write_fd, PipeHandle { end: PipeEnd::Write, pipe_id });
        assert(self@ =~= old(self)@.with_pipe());
        (read_fd, write_fd)
    }

    /// Returns true if `fd` is a known pipe descriptor.
    pub fn is_pipe_fd(&self, fd: i32) -> (r: bool)
        ensures
            r == self@.pipes.contains_key(fd),
    {
        self.pipes.contains_key(&fd)
    }

    /// The pipe that `fd` is the given end of.
    fn pipe_of(&self, fd: i32, end: PipeEnd) -> (r: Option<u32>)
        ensures
            r is Some <==> self@.is_end(fd, end),
            r matches Some(id) ==> id == self@.pipes[fd].pipe_id,
    {
        match self.pipes.get(&fd) {
            None => None,
            Some(h) => if h.end == end {
                Some(h.pipe_id)
            } else {
                None
            },
        }
    }

    /// Write bytes to the write end of a pipe. Returns bytes written, or `EBADF`
    /// if `fd` is not a write end.
    pub fn pipe_write(&mut self, fd: i32, data: &[u8]) -> (r: i32)
        ensures
            (final(self)@, r) == old(self)@.written(fd, data@),
    {
        let id: u32 = match self.pipe_of(fd, PipeEnd::Write) {
            None => {
                return EBADF;
            },
            Some(id) => id,
        };
        let mut buf = match self.pipe_bufs.remove(&id) {
            Some(b) => b,
            None => VecDeque::new(),
        };
        let ghost was = buf@;
        assert(was =~= old(self)@.waiting(fd));
        let n: usize = data.len();
        let mut i: usize = 0;
        while i < n
            invariant
                i <= n,
                n == data@.len(),
                buf@ == was + data@.take(i as int),
            decreases n - i,
        {
            buf.push_back(data[i]);
            i = i + 1;
            assert(buf@ =~= was + data@.take(i as int));
        }
        assert(data@.take(n as int) =~= data@);
        self.pipe_bufs.insert(id, buf);
        assert(self@ =~= old(self)@.with_waiting(fd, was + data@));
        n as i32
    }

    /// Read up to `out.len()` bytes from the read end of a pipe. Returns bytes
    /// read, or `EBADF` if `fd` is not a read end.
    pub fn pipe_read(&mut self, fd: i32, out: &mut [u8]) -> (r: i32)
        ensures
            ({
                let (after, got) = old(self)@.taken(fd, old(out)@.len());
                &&& final(self)@ == after
                &&& match got {
                    Ok(bytes) => r == bytes.len() as i32 && final(out)@ == splice(
                        old(out)@,
                        0,
                        bytes,
                    ),
                    Err(e) => r == e && final(out)@ == old(out)@,
                }
            }),
    {
        let id: u32 = match self.pipe_of(fd, PipeEnd::Read) {
            None => {
                return EBADF;
            },
            Some(id) => id,
        };
        let mut buf = match self.pipe_bufs.remove(&id) {
            Some(b) => b,
            None => {
                assert(self@ =~= old(self)@);
                assert(out@ =~= splice(out@, 0, old(self)@.waiting(fd).take(0)));
                return 0;
            },
        };
        let ghost was = buf@;
        let n: usize = if out.len() < buf.len() {
            out.len()
        } else {
            buf.len()
        };
        let mut i: usize = 0;
        assert(out@ =~= splice(old(out)@, 0, was.take(0)));
        assert(buf@ =~= was.skip(0));
        while i < n
            invariant
                i <= n,
                n <= was.len(),
                n <= old(out)@.len(),
                out@ == splice(old(out)@, 0, was.take(i as int)),
                buf@ == was.skip(i as int),
            decreases n - i,
        {
            if let Some(b) = buf.pop_front() {
                out[i] = b;
                assert(b == was[i as int]);
                assert(buf@ =~= was.skip(i + 1));
                assert(out@ =~= splice(old(out)@, 0, was.take(i + 1)));
            }
            i = i + 1;
        }
        self.pipe_bufs.insert(id, buf);
        assert(self@ =~= old(self)@.drained(fd, n as nat));
        n as i32
    }

    /// Register a spawned child.
    pub fn register_child(&mut self, worker_id: i32)
        ensures
            final(self)@ == old(self)@.with_child(worker_id),
    {
        self.child_pids.insert(worker_id);
        assert(self@ =~= old(self)@.with_child(worker_id));
    }

    /// Forget a child. Returns true if it was known.
    pub fn remove_child(&mut self, worker_id: i32) -> (r: bool)
        ensures
            r == old(self)@.children.contains(worker_id),
            final(self)@ == old(self)@.without_child(worker_id),
    {
        let r = self.child_pids.remove(&worker_id);
        assert(self@ =~= old(self)@.without_child(worker_id));
        r
    }

    /// Whether `worker_id` is a known child.
    pub fn has_child(&self, worker_id: i32) -> (r: bool)
        ensures
            r == self@.children.contains(worker_id),
    {
        self.child_pids.contains(&worker_id)
    }
}

/// Why a worker could not be spawned.
#[derive(Debug, Clone, Copy, PartialEq, Eq, Structural)]
pub enum SpawnError {
    /// Workers are nested too deeply.
    Depth,
    /// Too many workers are alive.
    Concurrency,
    /// The run does not grant it.
    Permission,
    /// There is no such program.
    Path,
    /// The process did not start.
    Spawn,
    /// Anything else.
    Other,
}

/// The errno for a failed spawn.
pub open spec fn spawn_errno(e: SpawnError) -> i32 {
    match e {
        SpawnError::Depth => EAGAIN,
        SpawnError::Concurrency => EAGAIN,
        SpawnError::Permission => EPERM,
        SpawnError::Path => ENOMEM,
        SpawnError::Spawn => ENOMEM,
        SpawnError::Other => ENOMEM,
    }
}

/// Map a failed spawn to an errno.
pub fn map_worker_err(e: SpawnError) -> (r: i32)
    ensures
        r == spawn_errno(e),
{
    match e {
        SpawnError::Depth => EAGAIN,
        SpawnError::Concurrency => EAGAIN,
        SpawnError::Permission => EPERM,
        SpawnError::Path => ENOMEM,
        SpawnError::Spawn => ENOMEM,
        SpawnError::Other => ENOMEM,
    }
}

/// Make sure that the state exists.
fn require_state(state: &mut Option<ProcessState>) -> (r: ProcessState)
    ensures
        r@ == processes(*old(state)),
        *final(state) is None,
{
    match state.take() {
        Some(p) => p,
        None => ProcessState::new(),
    }
}

/// Storing the descriptors of a new pipe, of which `fd` is the first: memory afterwards
/// and the result.
pub open spec fn pipe_told(mem: Seq<u8>, ptr: i32, fd: i32) -> (Seq<u8>, i32) {
    if guest_range(mem, ptr, 8) {
        (
            splice(
                mem,
                addr(ptr),
                le_bytes(fd as u32 as nat, 4) + le_bytes(fd.wrapping_add(1) as u32 as nat, 4),
            ),
            0i32,
        )
    } else {
        (mem, EINVAL)
    }
}

/// A guest that asked for a pipe reads the read end first and the write end behind it,
/// and these are the ends of the pipe that was made. No other byte of memory changes.
pub proof fn law_pipe_ends_are_told(p: ProcessView, mem: Seq<u8>, ptr: i32)
    requires
        ptr as u32 + 8 <= mem.len(),
        p.next_fd < i32::MAX,
    ensures
        ({
            let (m, r) = pipe_told(mem, ptr, p.next_fd);
            let at = ptr as u32 as int;
            let read = signed_at(m, at);
            let write = signed_at(m, at + 4);
            &&& r == 0
            &&& m.len() == mem.len()
            &&& read != write
            &&& p.with_pipe().is_end(read, PipeEnd::Read)
            &&& p.with_pipe().is_end(write, PipeEnd::Write)
            &&& p.with_pipe().pipes[read].pipe_id == p.with_pipe().pipes[write].pipe_id
            &&& forall|i: int|
                0 <= i < mem.len() && !(at <= i < at + 8) ==> #[trigger] m[i] == mem[i]
        }),
{
    let at = addr(ptr);
    let second = (p.next_fd + 1) as i32;
    let a = le_bytes(p.next_fd as u32 as nat, 4);
    let b = le_bytes(second as u32 as nat, 4);
    lemma_le_bytes_len(p.next_fd as u32 as nat, 4);
    lemma_le_bytes_len(second as u32 as nat, 4);
    let m = pipe_told(mem, ptr, p.next_fd).0;
    assert(m == splice(mem, at, a + b));
    assert(m.subrange(at, at + 4) =~= a);
    assert(m.subrange(at + 4, at + 8) =~= b);
    law_signed_reads_back(m, at, p.next_fd);
    law_signed_reads_back(m, at + 4, second);
}

/// `pipe` and `pipe2`: make a pipe and store its read and write descriptors at
/// `pipefd_ptr`. Without the grant nothing happens; a bad pointer is reported
/// after the pipe was made.
pub fn syscall_pipe(
    allowed: bool,
    state: &mut Option<ProcessState>,
    mem: &mut [u8],
    pipefd_ptr: i32,
) -> (r: i32)
    ensures
        !allowed ==> r == EPERM && *final(state) == *old(state) && final(mem)@ == old(mem)@,
        allowed ==> {
            let p = processes(*old(state));
            &&& *final(state) is Some
            &&& processes(*final(state)) == p.with_pipe()
            &&& (final(mem)@, r) == pipe_told(old(mem)@, pipefd_ptr, p.next_fd)
        },
{
    if !allowed {
        return EPERM;
    }
    let mut p = require_state(state);
    let (read_fd, write_fd): (i32, i32) = p.alloc_pipe();
    *state = Some(p);
    let at: usize = addr_of(pipefd_ptr);
    if !in_range(mem.len(), at, 8) {
        return EINVAL;
    }
    let mut pair = u32_bytes(read_fd as u32);
    let mut second = u32_bytes(write_fd as u32);
    proof {
        lemma_le_bytes_len(read_fd as u32 as nat, 4);
        lemma_le_bytes_len(write_fd as u32 as nat, 4);
    }
    pair.append(&mut second);
    write_at(mem, at, &pair);
    0
}

/// Whether a child may be started: `EPERM` without the grant or without a
/// coordinator.
pub fn spawn_refusal(allowed: bool, has_workers: bool) -> (r: Option<i32>)
    ensures
        r == if allowed && has_workers {
            None
        } else {
            Some(EPERM)
        },
{
    if allowed && has_workers {
        None
    } else {
        Some(EPERM)
    }
}

/// Record a spawned child and return its process id, or the errno of a failed
/// spawn.
pub fn finish_spawn(state: &mut Option<ProcessState>, spawned: Result<i32, SpawnError>) -> (r: i32)
    ensures
        match spawned {
            Ok(id) => r == id && *final(state) is Some && processes(*final(state)) == processes(
                *old(state),
            ).with_child(id),
            Err(e) => r == spawn_errno(e) && *final(state) == *old(state),
        },
{
    match spawned {
        Ok(id) => {
            let mut p = require_state(state);
            p.register_child(id);
            *state = Some(p);
            id
        },
        Err(e) => map_worker_err(e),
    }
}

/// The program that `posix_spawn` is to start, or the errno that refuses it.
pub fn posix_spawn_path(
    allowed: bool,
    has_workers: bool,
    mem: &[u8],
    path_ptr: i32,
) -> (r: Result<String, i32>)
    ensures
        !(allowed && has_workers) ==> r == Err::<String, i32>(EPERM),
        allowed && has_workers ==> match cstr_at(mem@, path_ptr) {
            Some(bytes) => r is Ok && r->Ok_0@ == utf8_lossy(bytes),
            None => r == Err::<String, i32>(EINVAL),
        },
{
    if !allowed || !has_workers {
        return Err(EPERM);
    }
    match read_cstr(mem, path_ptr) {
        Some(p) => Ok(p),
        None => Err(EINVAL),
    }
}

/// Record a child that `posix_spawn` started and store its process id at
/// `pid_ptr`, unless that is null or out of bounds. Returns 0 or an errno.
pub fn finish_posix_spawn(
    state: &mut Option<ProcessState>,
    mem: &mut [u8],
    pid_ptr: i32,
    spawned: Result<i32, SpawnError>,
) -> (r: i32)
    ensures
        match spawned {
            Ok(id) => {
                &&& r == 0
                &&& *final(state) is Some
                &&& processes(*final(state)) == processes(*old(state)).with_child(id)
                &&& final(mem)@ == if pid_ptr != 0 && guest_range(old(mem)@, pid_ptr, 4) {
                    splice(old(mem)@, addr(pid_ptr), le_bytes(id as u32 as nat, 4))
                } else {
                    old(mem)@
                }
            },
            Err(e) => r == spawn_errno(e) && *final(state) == *old(state) && final(mem)@
                == old(mem)@,
        },
{
    match spawned {
        Ok(id) => {
            let pid: i32 = finish_spawn(state, Ok(id));
            if pid_ptr != 0 {
                write_u32(mem, pid_ptr, pid as u32);
            }
            0
        },
        Err(e) => map_worker_err(e),
    }
}

/// Whether waiting for `pid` makes sense: `ECHILD` without a coordinator or for
/// a process that is no child.
pub fn wait_refusal(has_workers: bool, state: &Option<ProcessState>, pid: i32) -> (r: Option<i32>)
    ensures
        r == if has_workers && processes(*state).children.contains(pid) {
            None
        } else {
            Some(ECHILD)
        },
{
    let known = match state {
        Some(p) => p.has_child(pid),
        None => false,
    };
    if has_workers && known {
        None
    } else {
        Some(ECHILD)
    }
}

/// What a worker reports.
#[derive(Debug, Clone, Copy, PartialEq, Eq, Structural)]
pub enum WorkerEvent {
    /// The worker ended with this code.
    Exit { worker_id: i32, code: i32 },
    /// Anything else.
    Other,
}

/// The exit code that `event` brings for `worker_id`. `None` means to go on
/// waiting.
pub fn exit_code_of(event: WorkerEvent, worker_id: i32) -> (r: Option<i32>)
    ensures
        r == match event {
            WorkerEvent::Exit { worker_id: id, code } if id == worker_id => Some(code),
            _ => None,
        },
{
    match event {
        WorkerEvent::Exit { worker_id: id, code } => if id == worker_id {
            Some(code)
        } else {
            None
        },
        WorkerEvent::Other => None,
    }
}

/// Forget a child that was waited for.
fn forget_child(state: &mut Option<ProcessState>, pid: i32)
    ensures
        *old(state) is None ==> *final(state) is None,
        *old(state) is Some ==> *final(state) is Some && processes(*final(state)) == processes(
            *old(state),
        ).without_child(pid),
{
    if let Some(p) = state.take() {
        let mut p = p;
        p.remove_child(pid);
        *state = Some(p);
    }
}

/// `waitid` for a child that has ended: the child is forgotten and the call
/// succeeds, whatever the child's exit code was.
pub fn finish_waitid(state: &mut Option<ProcessState>, pid: i32) -> (r: i32)
    ensures
        r == 0,
        *old(state) is None ==> *final(state) is None,
        *old(state) is Some ==> *final(state) is Some && processes(*final(state)) == processes(
            *old(state),
        ).without_child(pid),
{
    forget_child(state, pid);
    0
}

/// The status word of a child that exited with `code`.
pub open spec fn wait_status(code: i32) -> i32 {
    (code & 0xff) << 8
}

/// Memory after the status of a child was stored, unless there is no place for it.
pub open spec fn status_told(mem: Seq<u8>, ptr: i32, code: i32) -> Seq<u8> {
    if ptr != 0 && guest_range(mem, ptr, 4) {
        splice(mem, addr(ptr), le_bytes(wait_status(code) as u32 as nat, 4))
    } else {
        mem
    }
}

/// The status of a child that exited is its code, cut to eight bits, in the second byte,
/// and zeros around it, which say that it exited by itself. This is what the guest reads
/// where it gave room for it.
pub proof fn law_status_holds_code(mem: Seq<u8>, ptr: i32, code: i32)
    ensures
        wait_status(code) == 256 * (code as int % 256),
        ({
            let m = status_told(mem, ptr, code);
            let at = ptr as u32 as int;
            &&& m.len() == mem.len()
            &&& ptr == 0 || at + 4 > mem.len() ==> m == mem
            &&& ptr != 0 && at + 4 <= mem.len() ==> signed_at(m, at) == 256 * (code as int % 256)
            &&& forall|i: int|
                0 <= i < mem.len() && !(at <= i < at + 4) ==> #[trigger] m[i] == mem[i]
        }),
{
    let low = code & 0xff;
    assert(0 <= low <= 255 && (low << 8) == 256 * low) by (bit_vector)
        requires
            low == code & 0xff,
    ;
    assert((code & 0xff) as u32 == (code as u32) % 256) by (bit_vector);
    lemma_low_byte(code);
    let v = wait_status(code);
    lemma_le_bytes_len(v as u32 as nat, 4);
    if ptr != 0 && guest_range(mem, ptr, 4) {
        law_splice_reads_back(mem, addr(ptr), le_bytes(v as u32 as nat, 4));
        law_signed_reads_back(status_told(mem, ptr, code), addr(ptr), v);
    }
}

/// The low byte of a number is its remainder by 256.
proof fn lemma_low_byte(code: i32)
    ensures
        (code & 0xff) == code as int % 256,
{
    let w = code as u32;
    assert((code & 0xff) as u32 == (code as u32) % 256) by (bit_vector);
    assert(0 <= code & 0xff <= 255) by (bit_vector);
    if code >= 0 {
        assert(w == code);
    } else {
        assert(w == code + 0x1_0000_0000) by {
            assert(code < 0 ==> (code as u32) as i64 == (code as i64) + 0x1_0000_0000i64) by (bit_vector);
        }
    }
}

/// Too many or too deeply nested workers are worth another try (`EAGAIN`), a run without
/// the grant is `EPERM`, and every other failure `ENOMEM`.
pub proof fn law_spawn_errnos(e: SpawnError)
    ensures
        spawn_errno(e) == match e {
            SpawnError::Depth => -11int,
            SpawnError::Concurrency => -11int,
            SpawnError::Permission => -1int,
            _ => -12int,
        },
{
}

/// A child is known from when it was started until it was waited for, whatever becomes
/// of the others; the pipes are not touched.
pub proof fn law_children_come_and_go(p: ProcessView, pid: i32, other: i32)
    requires
        other != pid,
    ensures
        p.with_child(pid).children.contains(pid),
        p.with_child(pid).children.contains(other) == p.children.contains(other),
        !p.without_child(pid).children.contains(pid),
        p.without_child(pid).children.contains(other) == p.children.contains(other),
        p.with_child(pid).pipes == p.pipes,
        p.with_child(pid).bufs == p.bufs,
        p.without_child(pid).pipes == p.pipes,
        p.without_child(pid).bufs == p.bufs,
{
}

/// `wait4` for a child that ended with `exit_code`: the child is forgotten, its
/// status stored at `wstatus_ptr` (unless that is null or out of bounds) and
/// its process id returned.
pub fn finish_wait4(
    state: &mut Option<ProcessState>,
    mem: &mut [u8],
    pid: i32,
    wstatus_ptr: i32,
    exit_code: i32,
) -> (r: i32)
    ensures
        r == pid,
        *old(state) is None ==> *final(state) is None,
        *old(state) is Some ==> *final(state) is Some && processes(*final(state)) == processes(
            *old(state),
        ).without_child(pid),
        final(mem)@ == status_told(old(mem)@, wstatus_ptr, exit_code),
{
    forget_child(state, pid);
    if wstatus_ptr != 0 {
        let status: i32 = (exit_code & 0xff) << 8;
        write_u32(mem, wstatus_ptr, status as u32);
    }
    pid
}

/// A JSON object key that needs no escaping.
pub open spec fn plain_key(k: Seq<char>) -> bool {
    forall|i: int|
        0 <= i < k.len() ==> ('a' <= #[trigger] k[i] <= 'z' || k[i] == '_')
}

/// `serde_json::Map` and the `Display` of `serde_json::Value`: an object of two
/// integers is written compactly, keys in order.
#[verifier::external_body]
fn json_pair(k1: &str, v1: i32, k2: &str, v2: i32) -> (r: String)
    requires
        plain_key(k1@),
        plain_key(k2@),
        text_before(k1@, k2@),
    ensures
        r@ == "{\""@ + k1@ + "\":"@ + decimal_signed(v1 as int) + ",\""@ + k2@ + "\":"@
            + decimal_signed(v2 as int) + "}"@,
{
    let mut m = serde_json::Map::new();
    m.insert(k1.to_owned(), serde_json::Value::from(v1));
    m.insert(k2.to_owned(), serde_json::Value::from(v2));
    serde_json::Value::Object(m).to_string()
}

/// What `clone` hands to the child: the function to enter and its argument.
pub fn clone_worker_data(fn_ptr: i32, arg: i32) -> (r: String)
    ensures
        r@ == "{\""@ + "arg"@ + "\":"@ + decimal_signed(arg as int) + ",\""@ + "fn_ptr"@ + "\":"@
            + decimal_signed(fn_ptr as int) + "}"@,
{
    proof {
        reveal_strlit("arg");
        reveal_strlit("fn_ptr");
    }
    json_pair("arg", arg, "fn_ptr", fn_ptr)
}

/// What `pthread_create` hands to the child: the routine to enter and its
/// argument.
pub fn thread_worker_data(start_fn: i32, arg: i32) -> (r: String)
    ensures
        r@ == "{\""@ + "arg"@ + "\":"@ + decimal_signed(arg as int) + ",\""@ + "start_fn"@ + "\":"@
            + decimal_signed(start_fn as int) + "}"@,
{
    proof {
        reveal_strlit("arg");
        reveal_strlit("start_fn");
    }
    json_pair("arg", arg, "start_fn", start_fn)
}

/// A run begins with no child and no descriptor that belongs to a pipe. The ends of its
/// first pipe are the descriptors 4096, to read from, and 4097, to write to; they share
/// the identity 1, and nothing waits between them.
pub proof fn law_run_begins_empty(fd: i32, pid: i32)
    ensures
        !no_processes().pipes.contains_key(fd),
        !no_processes().children.contains(pid),
        no_processes().bufs == Map::<u32, Seq<u8>>::empty(),
        ({
            let p = no_processes().with_pipe();
            &&& p.pipes.contains_key(fd) <==> fd == 4096 || fd == 4097
            &&& p.pipes[4096].end == PipeEnd::Read && p.pipes[4096].pipe_id == 1
            &&& p.pipes[4097].end == PipeEnd::Write && p.pipes[4097].pipe_id == 1
            &&& p.bufs.contains_key(1) && p.bufs[1].len() == 0
            &&& p.children == Set::<i32>::empty()
        }),
{
}

} // verus!
