//! Filesystem system calls of the Emscripten `env.*` layer.
//!
//! Each `syscall_*` function performs one call on the in-memory filesystem, the
//! pipes, the captured output and guest memory. Where the descriptor or path
//! belongs to a host directory, the function returns a [`HostRequest`]: the
//! embedding performs it and hands the result to the matching `finish_*`
//! function. Errors are negative errno values.

use vstd::prelude::*;

use crate::bytes::{
    addr, addr_of, bytes_at, guest_range, in_range, splice, u32_at, word_at, write_at, write_bytes,
};
use crate::emscripten_fs::{
    add_dots, errno_of, io_err_to_errno, mount_of, mounts, node_mode, node_size, plan_host_seek,
    read_len, read_slice, resolve_to_host_path, resolved, seek_target, trim_slashes, with_dirs,
    FdView, FsView,
    HostErrorKind, HostMeta, HostPath, HostSeek, InMemFs, DIRENT_INO_BASE, EBADF, EINVAL, ENOENT,
    ENOTDIR, ENOTTY,
};
use crate::emscripten_invoke::{read_table, sig_views, table_sigs, ImportSig};
use crate::emscripten_mechanical::{cstr_at, read_cstr};
use crate::emscripten_multiprocessing::{PipeEnd, ProcessState, ProcessView};
use crate::emscripten_runtime::{noted_arg, MechCallLog, Val, MECH_RING_CAP};
use crate::fs_listing::{
    entry_views, fitting, law_fitting_progress, lemma_records_fit, records, with_dots,
    write_entries,
};
use crate::fs_laws::{goes_on_behind, law_first_mount_holds, law_mkdir_keeps_and_makes};
use crate::fs_path::{
    canonical, is_canonical, law_canonical_fixes_canonical, law_canonical_idempotent, names,
};
use crate::fs_records::{stat_record, zero_bytes, EM_STAT_STRUCT_BYTES, lemma_stat_record_len};
use crate::ring::{ring_push, PathLog, PATH_LOG_CAP};
use crate::text::utf8_lossy;

verus! {

/// The `dirfd` that stands for the working directory, which is always `/`.
pub const AT_FDCWD: i32 = -100;

/// The first inode number in the records of a host directory.
pub const HOST_DIRENT_INO_BASE: u64 = 200;

/// What a system call needs the host for.
#[derive(Debug)]
pub enum HostRequest {
    /// Open `path` with the guest's `flags`; the descriptor is for `guest`.
    Open { guest: String, path: HostPath, flags: i32 },
    /// Create the directory `path` and its parents.
    MakeDir { path: HostPath },
    /// Read `len` bytes from the file behind `fd`.
    Read { fd: i32, len: usize },
    /// Read `len` bytes at `offset` from the file behind `fd`.
    ReadAt { fd: i32, len: usize, offset: i64 },
    /// Write to the file behind `fd`.
    Write { fd: i32, data: Vec<u8> },
    /// Write the chunks, in order, to the file behind `fd`. `complete` is false
    /// if the guest's list went on with a chunk outside memory.
    WriteAll { fd: i32, chunks: Vec<Vec<u8>>, complete: bool },
    /// Move the file behind `fd`.
    Seek { fd: i32, offset: i64, whence: i32 },
    /// Look up `path`.
    Stat { path: HostPath },
    /// Look up the file behind `fd`.
    StatFd { fd: i32 },
    /// List the directory `path`.
    ListDir { path: HostPath },
    /// Tell whether `path` exists.
    Probe { path: HostPath },
}

/// How a system call goes on.
#[derive(Debug)]
pub enum SysOutcome {
    /// The guest gets this value.
    Return(i32),
    /// The host has to do something first.
    Host(HostRequest),
}

/// The call returns `v`.
pub open spec fn returns_value(r: SysOutcome, v: i32) -> bool {
    r == SysOutcome::Return(v)
}

/// The absolute path that a path given relative to `dirfd` denotes.
pub open spec fn path_at(fs: FsView, dirfd: i32, path: Seq<char>) -> Result<Seq<char>, i32> {
    if (path.len() > 0 && path[0] == '/') || dirfd == AT_FDCWD {
        Ok(resolved(seq!['/'], path))
    } else {
        match fs.fd(dirfd) {
            Some(e) => Ok(resolved(e.path, path)),
            None => Err(EBADF),
        }
    }
}

/// The text of the C string at `ptr`.
pub open spec fn text_at(mem: Seq<u8>, ptr: i32) -> Option<Seq<char>> {
    match cstr_at(mem, ptr) {
        Some(bytes) => Some(utf8_lossy(bytes)),
        None => None,
    }
}

/// Resolve a path given relative to `dirfd`.
pub fn resolve_at(fs: &InMemFs, dirfd: i32, path: &str) -> (r: Result<String, i32>)
    requires
        fs.wf(),
    ensures
        match path_at(fs@, dirfd, path@) {
            Ok(abs) => r is Ok && r->Ok_0@ == abs,
            Err(e) => r == Err::<String, i32>(e),
        },
{
    proof {
        reveal_strlit("/");
        assert("/"@ =~= seq!['/']);
    }
    let cs = crate::text::chars_of(path);
    if (cs.len() > 0 && cs[0] == '/') || dirfd == AT_FDCWD {
        return Ok(fs.resolve("/", path));
    }
    match fs.fd_path(dirfd) {
        Some(base) => Ok(fs.resolve(base, path)),
        None => Err(EBADF),
    }
}

/// Storing the working directory: memory afterwards and the result.
pub open spec fn cwd_told(mem: Seq<u8>, buf: i32, size: i32) -> (Seq<u8>, i32) {
    if size >= 2 && guest_range(mem, buf, 2) {
        (splice(mem, addr(buf), seq![47u8, 0u8]), 2i32)
    } else {
        (mem, EINVAL)
    }
}

/// A guest with room for two bytes reads the C string `/` there, and gets its length with
/// the NUL. Without room it is `EINVAL`. No other byte of memory changes.
pub proof fn law_cwd_is_root(mem: Seq<u8>, buf: i32, size: i32, i: int)
    requires
        0 <= i < mem.len(),
    ensures
        ({
            let (m, r) = cwd_told(mem, buf, size);
            let at = buf as u32 as int;
            &&& m.len() == mem.len()
            &&& size >= 2 && at + 2 <= mem.len() ==> r == 2 && m[at] == '/' as u8 && m[at + 1] == 0
            &&& size < 2 || at + 2 > mem.len() ==> r == -22 && m == mem
            &&& !(at <= i < at + 2) ==> m[i] == mem[i]
        }),
{
}

/// `getcwd`: the working directory is `/`. Returns 2, the length of what was
/// written with its NUL.
pub fn syscall_getcwd(mem: &mut [u8], buf: i32, size: i32) -> (r: i32)
    ensures
        (final(mem)@, r) == cwd_told(old(mem)@, buf, size),
{
    if size < 2 {
        return EINVAL;
    }
    let cwd = vec![47u8, 0];
    assert(cwd@ =~= seq![47u8, 0u8]);
    if write_bytes(mem, buf, &cwd) {
        2
    } else {
        EINVAL
    }
}

/// What `openat` does: resolve the path, note it in the log, and open it here,
/// or ask the host if it lies under a mount point.
pub open spec fn openat_done(
    before: (FsView, Seq<Seq<char>>),
    after: (FsView, Seq<Seq<char>>),
    roots: Seq<Seq<char>>,
    dirfd: i32,
    path: Seq<char>,
    flags: i32,
    r: SysOutcome,
) -> bool {
    match path_at(before.0, dirfd, path) {
        Err(e) => returns_value(r, e) && after.0 == before.0 && after.1 == before.1,
        Ok(abs) => {
            &&& after.1 == ring_push(before.1, "openat:"@ + abs, PATH_LOG_CAP as nat)
            &&& match mount_of(abs, roots) {
                Some(_) => {
                    &&& after.0 == before.0
                    &&& r matches SysOutcome::Host(HostRequest::Open { guest, path, flags: f })
                    &&& guest@ == abs
                    &&& path.denotes(abs, roots)
                    &&& f == flags
                },
                None => {
                    &&& after.0 == before.0.opened(abs, flags).0
                    &&& returns_value(r, before.0.opened(abs, flags).1)
                },
            }
        },
    }
}

/// `openat` on a path that has been read from memory: resolve it, note it in
/// the log, and open it here or on the host.
pub fn openat_path(
    fs: &mut InMemFs,
    log: &mut PathLog,
    preopens: &Vec<(String, String)>,
    dirfd: i32,
    path: &str,
    flags: i32,
) -> (r: SysOutcome)
    requires
        old(fs).wf(),
    ensures
        final(fs).wf(),
        openat_done(
            (old(fs)@, old(log)@),
            (final(fs)@, final(log)@),
            mounts(preopens@),
            dirfd,
            path@,
            flags,
            r,
        ),
{
    let abs = match resolve_at(fs, dirfd, path) {
        Err(e) => {
            return SysOutcome::Return(e);
        },
        Ok(p) => p,
    };
    log.push("openat:", abs.as_str());
    match resolve_to_host_path(abs.as_str(), preopens) {
        Some(host) => SysOutcome::Host(HostRequest::Open { guest: abs, path: host, flags }),
        None => SysOutcome::Return(fs.open(abs, flags)),
    }
}

/// `openat`: open the path at `pathptr`.
pub fn syscall_openat(
    fs: &mut InMemFs,
    log: &mut PathLog,
    preopens: &Vec<(String, String)>,
    mem: &[u8],
    dirfd: i32,
    pathptr: i32,
    flags: i32,
) -> (r: SysOutcome)
    requires
        old(fs).wf(),
    ensures
        final(fs).wf(),
        match text_at(mem@, pathptr) {
            None => returns_value(r, ENOENT) && final(fs)@ == old(fs)@ && final(log)@
                == old(log)@,
            Some(path) => openat_done(
                (old(fs)@, old(log)@),
                (final(fs)@, final(log)@),
                mounts(preopens@),
                dirfd,
                path,
                flags,
                r,
            ),
        },
{
    match read_cstr(mem, pathptr) {
        None => SysOutcome::Return(ENOENT),
        Some(path) => openat_path(fs, log, preopens, dirfd, path.as_str(), flags),
    }
}

/// What `mkdirat` does: create the directory and its missing parents, or ask the
/// host if it lies under a mount point.
pub open spec fn mkdirat_done(
    before: FsView,
    after: FsView,
    roots: Seq<Seq<char>>,
    dirfd: i32,
    path: Seq<char>,
    r: SysOutcome,
) -> bool {
    match path_at(before, dirfd, path) {
        Err(e) => returns_value(r, e) && after == before,
        Ok(abs) => match mount_of(abs, roots) {
            Some(_) => {
                &&& after == before
                &&& r matches SysOutcome::Host(HostRequest::MakeDir { path })
                &&& path.denotes(abs, roots)
            },
            None => returns_value(r, 0) && after == before.with_nodes(
                with_dirs(before.nodes, names(abs)),
            ),
        },
    }
}

/// `mkdirat` on a path that has been read from memory: create the directory and
/// its missing parents, here or on the host.
pub fn mkdirat_path(
    fs: &mut InMemFs,
    preopens: &Vec<(String, String)>,
    dirfd: i32,
    path: &str,
) -> (r: SysOutcome)
    requires
        old(fs).wf(),
    ensures
        final(fs).wf(),
        mkdirat_done(old(fs)@, final(fs)@, mounts(preopens@), dirfd, path@, r),
{
    let abs = match resolve_at(fs, dirfd, path) {
        Err(e) => {
            return SysOutcome::Return(e);
        },
        Ok(p) => p,
    };
    match resolve_to_host_path(abs.as_str(), preopens) {
        Some(host) => SysOutcome::Host(HostRequest::MakeDir { path: host }),
        None => {
            fs.mkdir_p(abs.as_str());
            SysOutcome::Return(0)
        },
    }
}

/// `mkdirat`: create the directory at the path at `pathptr`.
pub fn syscall_mkdirat(
    fs: &mut InMemFs,
    preopens: &Vec<(String, String)>,
    mem: &[u8],
    dirfd: i32,
    pathptr: i32,
) -> (r: SysOutcome)
    requires
        old(fs).wf(),
    ensures
        final(fs).wf(),
        match text_at(mem@, pathptr) {
            None => returns_value(r, ENOENT) && final(fs)@ == old(fs)@,
            Some(path) => mkdirat_done(
                old(fs)@,
                final(fs)@,
                mounts(preopens@),
                dirfd,
                path,
                r,
            ),
        },
{
    match read_cstr(mem, pathptr) {
        None => SysOutcome::Return(ENOENT),
        Some(path) => mkdirat_path(fs, preopens, dirfd, path.as_str()),
    }
}

/// The result of a host operation that succeeds with 0.
pub fn finish_host_unit(done: Result<(), HostErrorKind>) -> (r: i32)
    ensures
        r == match done {
            Ok(_) => 0,
            Err(kind) => errno_of(kind),
        },
{
    match done {
        Ok(_) => 0,
        Err(kind) => io_err_to_errno(kind),
    }
}

/// What `faccessat` answers: 0 for a path that exists, `ENOENT` otherwise; the
/// host is asked about a path under a mount point.
pub open spec fn faccessat_done(
    fs: FsView,
    roots: Seq<Seq<char>>,
    dirfd: i32,
    path: Seq<char>,
    r: SysOutcome,
) -> bool {
    match path_at(fs, dirfd, path) {
        Err(e) => returns_value(r, e),
        Ok(abs) => match mount_of(abs, roots) {
            Some(_) => {
                &&& r matches SysOutcome::Host(HostRequest::Probe { path })
                &&& path.denotes(abs, roots)
            },
            None => returns_value(
                r,
                if fs.nodes.contains_key(abs) {
                    0
                } else {
                    ENOENT
                },
            ),
        },
    }
}

/// `faccessat` on a path that has been read from memory: 0 if the path exists,
/// `ENOENT` otherwise.
pub fn faccessat_path(
    fs: &InMemFs,
    preopens: &Vec<(String, String)>,
    dirfd: i32,
    path: &str,
) -> (r: SysOutcome)
    requires
        fs.wf(),
    ensures
        faccessat_done(fs@, mounts(preopens@), dirfd, path@, r),
{
    let abs = match resolve_at(fs, dirfd, path) {
        Err(e) => {
            return SysOutcome::Return(e);
        },
        Ok(p) => p,
    };
    match resolve_to_host_path(abs.as_str(), preopens) {
        Some(host) => SysOutcome::Host(HostRequest::Probe { path: host }),
        None => SysOutcome::Return(finish_faccessat(fs.has_path(abs.as_str()))),
    }
}

/// The result of `faccessat` for a path that exists or not.
pub fn finish_faccessat(found: bool) -> (r: i32)
    ensures
        r == if found {
            0
        } else {
            ENOENT
        },
{
    if found {
        0
    } else {
        ENOENT
    }
}

/// `faccessat`: whether the path at `pathptr` exists.
pub fn syscall_faccessat(
    fs: &InMemFs,
    preopens: &Vec<(String, String)>,
    mem: &[u8],
    dirfd: i32,
    pathptr: i32,
) -> (r: SysOutcome)
    requires
        fs.wf(),
    ensures
        match text_at(mem@, pathptr) {
            None => returns_value(r, ENOENT),
            Some(path) => faccessat_done(fs@, mounts(preopens@), dirfd, path, r),
        },
{
    match read_cstr(mem, pathptr) {
        None => SysOutcome::Return(ENOENT),
        Some(path) => faccessat_path(fs, preopens, dirfd, path.as_str()),
    }
}

/// `ioctl`: nothing is a terminal.
pub fn syscall_ioctl() -> (r: i32)
    ensures
        r == ENOTTY,
{
    ENOTTY
}

/// `fcntl64`: `F_GETFL` answers `O_RDONLY`, and everything else succeeds without
/// effect.
pub fn syscall_fcntl64() -> (r: i32)
    ensures
        r == 0,
{
    0
}

/// `readlinkat`: there are no symbolic links.
pub fn syscall_readlinkat() -> (r: i32)
    ensures
        r == EINVAL,
{
    EINVAL
}

/// A call that is not provided: it is noted, and fails with -1.
pub fn syscall_unsupported(log: &mut MechCallLog, name: &'static str, args: &Vec<Val>) -> (r: i32)
    ensures
        r == -1,
        final(log)@ == ring_push(
            old(log)@,
            (name@, noted_arg(args@, 0), noted_arg(args@, 1)),
            MECH_RING_CAP as nat,
        ),
{
    log.note_call(name, args);
    -1
}

/// The calls that are not provided, by signature.
pub const UNSUPPORTED_SYSCALLS: &'static str = "\
    i i __syscall_rmdir __syscall_chdir __syscall_fchdir __syscall_dup __syscall_fdatasync;\
    ii i __syscall_symlink __syscall_chmod __syscall_fchmod;\
    iii i __syscall_unlinkat __syscall_symlinkat __syscall_fchown32 __syscall_dup3 \
    __syscall_poll __syscall_fstatfs64 __syscall_statfs64;\
    iiii i __syscall_mknodat __syscall_renameat __syscall_fchmodat2 __syscall_utimensat;\
    iiiii i __syscall_fchownat __syscall__newselect;\
    iiiiii i __syscall_getsockopt __syscall_getsockname __syscall_getpeername;\
    ijji i __syscall_fadvise64;\
    iijj i __syscall_fallocate;\
    ij i __syscall_ftruncate64 __syscall_truncate64";

/// The calls that are not provided, with their signatures. Each returns what
/// [`syscall_unsupported`] does.
pub fn unsupported_syscalls() -> (r: Vec<ImportSig>)
    ensures
        sig_views(r@) == table_sigs(UNSUPPORTED_SYSCALLS@),
{
    read_table(UNSUPPORTED_SYSCALLS)
}

/// A length below 2^32 keeps its value as a signed word exactly if it is below
/// 2^31, and is negative otherwise.
pub proof fn lemma_signed_len(n: int)
    requires
        0 <= n <= u32::MAX,
    ensures
        n <= i32::MAX ==> (n as i32) == n,
        n > i32::MAX ==> (n as i32) < 0,
{
    let x = n as u32;
    assert(x > 0x7fff_ffff ==> (x as i32) < 0) by (bit_vector);
}

/// The pipes and children of a run that has some.
pub open spec fn pipes_of(s: Option<ProcessState>) -> Option<ProcessView> {
    match s {
        Some(p) => Some(p@),
        None => None,
    }
}

/// Whether `fd` is a pipe.
pub open spec fn is_pipe(p: Option<ProcessView>, fd: i32) -> bool {
    match p {
        Some(v) => v.pipes.contains_key(fd),
        None => false,
    }
}

/// Whether `fd` is a pipe.
fn pipe_fd(procs: &Option<ProcessState>, fd: i32) -> (r: bool)
    ensures
        r == is_pipe(pipes_of(*procs), fd),
{
    match procs {
        Some(p) => p.is_pipe_fd(fd),
        None => false,
    }
}

/// What `read` does to the files, the pipes and memory.
pub open spec fn read_call(
    before: (FsView, Option<ProcessView>, Seq<u8>),
    after: (FsView, Option<ProcessView>, Seq<u8>),
    fd: i32,
    buf: i32,
    count: i32,
    r: SysOutcome,
) -> bool {
    let len = count as u32;
    let same_fs = after.0 == before.0;
    let same_procs = after.1 == before.1;
    let same_mem = after.2 == before.2;
    if len == 0 {
        returns_value(r, 0) && same_fs && same_procs && same_mem
    } else if !guest_range(before.2, buf, len as int) {
        returns_value(r, EINVAL) && same_fs && same_procs && same_mem
    } else if is_pipe(before.1, fd) {
        let p = before.1->0;
        if p.is_end(fd, PipeEnd::Read) {
            let n = p.readable(fd, len as nat);
            &&& same_fs
            &&& returns_value(r, n as i32)
            &&& after.1 == Some(p.drained(fd, n))
            &&& after.2 == if n <= i32::MAX {
                splice(before.2, addr(buf), p.waiting(fd).take(n as int))
            } else {
                before.2
            }
        } else {
            returns_value(r, EBADF) && same_fs && same_procs && same_mem
        }
    } else if before.0.host_fds.contains(fd) {
        &&& same_fs && same_procs && same_mem
        &&& r matches SysOutcome::Host(HostRequest::Read { fd: f, len: l })
        &&& f == fd
        &&& l == len
    } else {
        match before.0.fd_file(fd) {
            Err(e) => returns_value(r, e) && same_fs && same_procs && same_mem,
            Ok(data) => {
                let at = before.0.fd(fd)->0.offset;
                let n = read_len(data, at, len as int);
                &&& same_procs
                &&& returns_value(r, n as i32)
                &&& after.0 == before.0.with_offset(fd, (at + n) as u64)
                &&& after.2 == if n <= i32::MAX {
                    splice(before.2, addr(buf), read_slice(data, at, len as int))
                } else {
                    before.2
                }
            },
        }
    }
}

/// `read`: up to `count` bytes from a pipe or a file go to `buf`. A count of 0
/// reads nothing, and a buffer outside memory is `EINVAL`; pipes come before
/// host files and host files before the in-memory ones.
pub fn syscall_read(
    fs: &mut InMemFs,
    procs: &mut Option<ProcessState>,
    mem: &mut [u8],
    fd: i32,
    buf: i32,
    count: i32,
) -> (r: SysOutcome)
    requires
        old(fs).wf(),
    ensures
        final(fs).wf(),
        read_call(
            (old(fs)@, pipes_of(*old(procs)), old(mem)@),
            (final(fs)@, pipes_of(*final(procs)), final(mem)@),
            fd,
            buf,
            count,
            r,
        ),
{
    let len: usize = count as u32 as usize;
    if len == 0 {
        return SysOutcome::Return(0);
    }
    let start: usize = addr_of(buf);
    if !in_range(mem.len(), start, len) {
        return SysOutcome::Return(EINVAL);
    }
    if pipe_fd(procs, fd) {
        let mut tmp = zero_bytes(len);
        let n: i32 = match procs.take() {
            Some(p) => {
                let mut p = p;
                let n: i32 = p.pipe_read(fd, tmp.as_mut_slice());
                *procs = Some(p);
                n
            },
            None => EBADF,
        };
        proof {
            let p = pipes_of(*old(procs))->0;
            if p.is_end(fd, PipeEnd::Read) {
                lemma_signed_len(p.readable(fd, len as nat) as int);
            }
        }
        if n < 0 {
            return SysOutcome::Return(n);
        }
        proof {
            let p = pipes_of(*old(procs))->0;
            let k = p.readable(fd, len as nat);
            assert(tmp@.subrange(0, k as int) =~= p.waiting(fd).take(k as int));
        }
        write_at(mem, start, &tmp[0..n as usize]);
        return SysOutcome::Return(n);
    }
    if fs.is_host_fd(fd) {
        return SysOutcome::Host(HostRequest::Read { fd, len });
    }
    let mut tmp = zero_bytes(len);
    let n: i32 = fs.read(fd, tmp.as_mut_slice());
    proof {
        if old(fs)@.fd_file(fd) is Ok {
            let data = old(fs)@.fd_file(fd)->Ok_0;
            let at = old(fs)@.fd(fd)->0.offset;
            let k = read_len(data, at, len as int);
            lemma_signed_len(k);
            assert(tmp@.subrange(0, k) =~= read_slice(data, at, len as int));
        }
    }
    if n < 0 {
        return SysOutcome::Return(n);
    }
    write_at(mem, start, &tmp[0..n as usize]);
    SysOutcome::Return(n)
}

/// Handing what was read from a host file to the guest: memory afterwards and the result.
pub open spec fn host_read_told(
    mem: Seq<u8>,
    buf: i32,
    len: int,
    done: Result<Seq<u8>, HostErrorKind>,
) -> (Seq<u8>, i32) {
    if !guest_range(mem, buf, len) {
        (mem, EINVAL)
    } else {
        match done {
            Err(kind) => (mem, errno_of(kind)),
            Ok(data) => (
                if data.len() <= i32::MAX {
                    splice(mem, addr(buf), data)
                } else {
                    mem
                },
                data.len() as i32,
            ),
        }
    }
}

/// What was read from a host file stands at the buffer of the guest, which gets its
/// length; a host file that could not be read answers its errno. No other byte of memory
/// changes.
pub proof fn law_host_read_reaches_guest(mem: Seq<u8>, buf: i32, len: int, data: Seq<u8>, i: int)
    requires
        data.len() <= len <= i32::MAX,
        buf as u32 + len <= mem.len(),
        0 <= i < mem.len(),
    ensures
        ({
            let (m, r) = host_read_told(mem, buf, len, Ok(data));
            let at = buf as u32 as int;
            &&& r == data.len()
            &&& m.len() == mem.len()
            &&& m.subrange(at, at + data.len()) == data
            &&& !(at <= i < at + data.len()) ==> m[i] == mem[i]
            &&& forall|kind: HostErrorKind| #[trigger]
                host_read_told(mem, buf, len, Err(kind)) == (mem, errno_of(kind))
        }),
{
    let at = buf as u32 as int;
    let m = host_read_told(mem, buf, len, Ok(data)).0;
    assert(m.subrange(at, at + data.len()) =~= data);
}

/// Complete a `read` of `len` bytes from a host file: what was read goes to `buf`.
pub fn finish_host_read(
    mem: &mut [u8],
    buf: i32,
    len: usize,
    done: Result<Vec<u8>, HostErrorKind>,
) -> (r: i32)
    requires
        done matches Ok(data) ==> data@.len() <= len <= u32::MAX,
    ensures
        (final(mem)@, r) == host_read_told(
            old(mem)@,
            buf,
            len as int,
            match done {
                Ok(data) => Ok(data@),
                Err(kind) => Err(kind),
            },
        ),
{
    let start: usize = addr_of(buf);
    if !in_range(mem.len(), start, len) {
        return EINVAL;
    }
    match done {
        Err(kind) => io_err_to_errno(kind),
        Ok(data) => {
            let n: i32 = data.len() as i32;
            proof {
                lemma_signed_len(data@.len() as int);
            }
            if n >= 0 {
                write_at(mem, start, &data);
            }
            n
        },
    }
}

/// What the guest's output reaches.
#[verifier::ext_equal]
pub struct Streams {
    pub fs: FsView,
    pub pipes: Option<ProcessView>,
    /// Captured standard output and standard error.
    pub out: Seq<u8>,
}

impl Streams {
    /// Writing `chunk` to `fd`: the state afterwards and the count or errno.
    /// Standard output and error are captured, a pipe takes the bytes at its
    /// write end, an open file gets them appended; what goes to any other
    /// descriptor is dropped and counted.
    pub open spec fn with_chunk(self, fd: i32, chunk: Seq<u8>) -> (Streams, Result<i32, i32>) {
        let n = chunk.len() as i32;
        let outcome = if n < 0 {
            Err(n)
        } else {
            Ok(n)
        };
        if fd == 1 || fd == 2 {
            (Streams { out: self.out + chunk, ..self }, Ok(n))
        } else if is_pipe(self.pipes, fd) {
            let p = self.pipes->0;
            if p.is_end(fd, PipeEnd::Write) {
                (
                    Streams {
                        pipes: Some(p.with_waiting(fd, p.waiting(fd) + chunk)),
                        ..self
                    },
                    outcome,
                )
            } else {
                (self, Err(EBADF))
            }
        } else if self.fs.closable(fd) {
            match self.fs.fd_file(fd) {
                Err(e) => (self, Err(e)),
                Ok(file) => (
                    Streams {
                        fs: self.fs.with_file(fd, file + chunk).with_offset(
                            fd,
                            self.fs.fd(fd)->0.offset.wrapping_add(chunk.len() as u64),
                        ),
                        ..self
                    },
                    outcome,
                ),
            }
        } else {
            (self, Ok(n))
        }
    }

    /// Writing `chunks` in order until one fails, counting from `total`.
    pub open spec fn with_chunks(
        self,
        fd: i32,
        chunks: Seq<Seq<u8>>,
        total: i32,
    ) -> (Streams, Result<i32, i32>)
        decreases chunks.len(),
    {
        if chunks.len() == 0 {
            (self, Ok(total))
        } else {
            match self.with_chunk(fd, chunks[0]) {
                (next, Ok(n)) => next.with_chunks(fd, chunks.skip(1), total.wrapping_add(n)),
                (next, Err(e)) => (next, Err(e)),
            }
        }
    }
}

/// Writing makes no pipes.
pub proof fn lemma_no_pipes(s: Streams, fd: i32, chunks: Seq<Seq<u8>>, total: i32)
    requires
        s.pipes is None,
    ensures
        s.with_chunks(fd, chunks, total).0.pipes is None,
    decreases chunks.len(),
{
    if chunks.len() > 0 {
        match s.with_chunk(fd, chunks[0]) {
            (next, Ok(n)) => lemma_no_pipes(next, fd, chunks.skip(1), total.wrapping_add(n)),
            (next, Err(e)) => {},
        }
    }
}

/// The streams that the parts of a run's state make up.
pub open spec fn streams(fs: InMemFs, procs: Option<ProcessState>, out: Vec<u8>) -> Streams {
    Streams { fs: fs@, pipes: pipes_of(procs), out: out@ }
}

/// Write one chunk to a descriptor that no host file is behind.
fn put_chunk(
    fs: &mut InMemFs,
    procs: &mut Option<ProcessState>,
    out: &mut Vec<u8>,
    fd: i32,
    chunk: &[u8],
) -> (r: Result<i32, i32>)
    requires
        old(fs).wf(),
    ensures
        final(fs).wf(),
        (streams(*final(fs), *final(procs), *final(out)), r) == streams(
            *old(fs),
            *old(procs),
            *old(out),
        ).with_chunk(fd, chunk@),
{
    let len: i32 = chunk.len() as i32;
    if fd == 1 || fd == 2 {
        out.extend_from_slice(chunk);
        assert(out@ =~= old(out)@ + chunk@);
        return Ok(len);
    }
    if pipe_fd(procs, fd) {
        let n: i32 = match procs.take() {
            Some(p) => {
                let mut p = p;
                let n: i32 = p.pipe_write(fd, chunk);
                *procs = Some(p);
                n
            },
            None => EBADF,
        };
        return if n < 0 {
            Err(n)
        } else {
            Ok(n)
        };
    }
    if fs.is_fs_fd(fd) {
        let n: i32 = fs.write(fd, chunk);
        return if n < 0 {
            Err(n)
        } else {
            Ok(n)
        };
    }
    Ok(len)
}

/// The non-empty buffers of `n` descriptions that start at `off`, up to the
/// first that lies outside memory, and whether there was none such.
pub open spec fn buffers(mem: Seq<u8>, off: int, n: int) -> (Seq<Seq<u8>>, bool)
    decreases n,
{
    if n <= 0 {
        (Seq::empty(), true)
    } else {
        let ptr = word_at(mem, off) as int;
        let len = word_at(mem, off + 4) as int;
        let rest = buffers(mem, off + 8, n - 1);
        if len == 0 {
            rest
        } else if ptr + len > mem.len() {
            (Seq::empty(), false)
        } else {
            (seq![mem.subrange(ptr, ptr + len)] + rest.0, rest.1)
        }
    }
}

/// The contents of a list of byte vectors.
pub open spec fn chunk_views(v: Seq<Vec<u8>>) -> Seq<Seq<u8>> {
    Seq::new(v.len(), |i: int| v[i]@)
}

/// Collect the buffers of `n` descriptions that start at `at`.
pub fn collect_buffers(mem: &[u8], at: usize, n: usize) -> (r: (Vec<Vec<u8>>, bool))
    requires
        at + 8 * n <= mem@.len(),
    ensures
        (chunk_views(r.0@), r.1) == buffers(mem@, at as int, n as int),
{
    let len: usize = mem.len();
    let mut out: Vec<Vec<u8>> = Vec::new();
    let mut i: usize = 0;
    let ghost all = buffers(mem@, at as int, n as int);
    proof {
        assert(chunk_views(out@) + all.0 =~= all.0);
    }
    while i < n
        invariant
            i <= n,
            len == mem@.len(),
            at + 8 * n <= len,
            all == buffers(mem@, at as int, n as int),
            all.0 == chunk_views(out@) + buffers(mem@, at + 8 * i, n - i).0,
            all.1 == buffers(mem@, at + 8 * i, n - i).1,
        decreases n - i,
    {
        let off: usize = at + 8 * i;
        let ptr: usize = u32_at(mem, off) as usize;
        let size: usize = u32_at(mem, off + 4) as usize;
        let ghost rest = buffers(mem@, off + 8, n - i - 1);
        if size != 0 {
            if !in_range(len, ptr, size) {
                assert(chunk_views(out@) + Seq::<Seq<u8>>::empty() =~= chunk_views(out@));
                return (out, false);
            }
            let ghost done = chunk_views(out@);
            let chunk = bytes_at(mem, ptr, size);
            let ghost piece = chunk@;
            out.push(chunk);
            assert(chunk_views(out@) =~= done.push(piece));
            assert(done + (seq![piece] + rest.0) =~= chunk_views(out@) + rest.0);
        }
        i = i + 1;
    }
    assert(chunk_views(out@) + Seq::<Seq<u8>>::empty() =~= chunk_views(out@));
    (out, true)
}

/// Write chunks in order until one fails.
pub fn put_chunks(
    fs: &mut InMemFs,
    procs: &mut Option<ProcessState>,
    out: &mut Vec<u8>,
    fd: i32,
    chunks: &Vec<Vec<u8>>,
) -> (r: Result<i32, i32>)
    requires
        old(fs).wf(),
    ensures
        final(fs).wf(),
        (streams(*final(fs), *final(procs), *final(out)), r) == streams(
            *old(fs),
            *old(procs),
            *old(out),
        ).with_chunks(fd, chunk_views(chunks@), 0),
{
    let n: usize = chunks.len();
    let mut i: usize = 0;
    let mut total: i32 = 0;
    let ghost all = chunk_views(chunks@);
    let ghost want = streams(*fs, *procs, *out).with_chunks(fd, all, 0);
    assert(all.skip(0) =~= all);
    while i < n
        invariant
            fs.wf(),
            i <= n,
            n == chunks@.len(),
            all == chunk_views(chunks@),
            want == streams(*old(fs), *old(procs), *old(out)).with_chunks(fd, all, 0),
            want == streams(*fs, *procs, *out).with_chunks(fd, all.skip(i as int), total),
        decreases n - i,
    {
        assert(all.skip(i as int)[0] == chunks@[i as int]@);
        assert(all.skip(i as int).skip(1) =~= all.skip(i + 1));
        match put_chunk(fs, procs, out, fd, chunks[i].as_slice()) {
            Ok(k) => {
                total = total.wrapping_add(k);
            },
            Err(e) => {
                return Err(e);
            },
        }
        i = i + 1;
    }
    Ok(total)
}

/// What `writev` does to what the guest's output reaches.
pub open spec fn writev_call(
    before: Streams,
    after: Streams,
    mem: Seq<u8>,
    fd: i32,
    iov: i32,
    iovcnt: i32,
    r: SysOutcome,
) -> bool {
    let n = iovcnt as u32;
    if !guest_range(mem, iov, 8 * n) {
        returns_value(r, EINVAL) && after == before
    } else {
        let list = buffers(mem, addr(iov), n as int);
        if fd != 1 && fd != 2 && !is_pipe(before.pipes, fd) && before.fs.closable(fd)
            && before.fs.host_fds.contains(fd) {
            &&& after == before
            &&& r matches SysOutcome::Host(
                HostRequest::WriteAll { fd: f, chunks, complete },
            )
            &&& f == fd
            &&& chunk_views(chunks@) == list.0
            &&& complete == list.1
        } else {
            let done = before.with_chunks(fd, list.0, 0);
            &&& after == done.0
            &&& returns_value(
                r,
                match done.1 {
                    Err(e) => e,
                    Ok(total) => if list.1 {
                        total
                    } else {
                        EINVAL
                    },
                },
            )
        }
    }
}

/// `writev`: write the buffers that `iovcnt` descriptions at `iov` name, in
/// order. A list or buffer outside memory is `EINVAL`; what came before it is
/// written. Returns the bytes counted.
pub fn syscall_writev(
    fs: &mut InMemFs,
    procs: &mut Option<ProcessState>,
    out: &mut Vec<u8>,
    mem: &[u8],
    fd: i32,
    iov: i32,
    iovcnt: i32,
) -> (r: SysOutcome)
    requires
        old(fs).wf(),
    ensures
        final(fs).wf(),
        writev_call(
            streams(*old(fs), *old(procs), *old(out)),
            streams(*final(fs), *final(procs), *final(out)),
            mem@,
            fd,
            iov,
            iovcnt,
            r,
        ),
{
    let n: usize = iovcnt as u32 as usize;
    let at: usize = addr_of(iov);
    // Widened: the list of a 32-bit count may be longer than 2^32 bytes.
    if at as u128 + 8 * (n as u128) > mem.len() as u128 {
        return SysOutcome::Return(EINVAL);
    }
    let (chunks, complete): (Vec<Vec<u8>>, bool) = collect_buffers(mem, at, n);
    if fd != 1 && fd != 2 && !pipe_fd(procs, fd) && fs.is_fs_fd(fd) && fs.is_host_fd(fd) {
        return SysOutcome::Host(HostRequest::WriteAll { fd, chunks, complete });
    }
    match put_chunks(fs, procs, out, fd, &chunks) {
        Err(e) => SysOutcome::Return(e),
        Ok(total) => if complete {
            SysOutcome::Return(total)
        } else {
            SysOutcome::Return(EINVAL)
        },
    }
}

/// What a chunk of `len` bytes makes of the running total of a `writev` to a host file,
/// or the errno that ends the call.
pub open spec fn host_chunk_told(
    total: i32,
    done: Result<usize, HostErrorKind>,
    len: usize,
) -> Result<i32, i32> {
    match done {
        Err(kind) => Err(errno_of(kind)),
        Ok(n) => if (n as i32) < 0 {
            Err(n as i32)
        } else {
            Ok(total.wrapping_add(len as i32))
        },
    }
}

/// One step of a `writev` to a host file: the running total after a chunk of
/// `len` bytes was written, or the errno that ends the call.
pub fn writev_host_step(total: i32, done: Result<usize, HostErrorKind>, len: usize) -> (r: Result<
    i32,
    i32,
>)
    ensures
        r == host_chunk_told(total, done, len),
{
    match done {
        Err(kind) => Err(io_err_to_errno(kind)),
        Ok(n) => {
            let k: i32 = n as i32;
            if k < 0 {
                Err(k)
            } else {
                Ok(total.wrapping_add(len as i32))
            }
        },
    }
}

/// Complete a `writev` to a host file: `total` bytes were written, and `complete` is
/// false if a chunk outside memory came next.
pub fn finish_writev(total: i32, complete: bool) -> (r: i32)
    ensures
        r == if complete {
            total
        } else {
            EINVAL
        },
{
    if complete {
        total
    } else {
        EINVAL
    }
}

/// What `write` does to what the guest's output reaches.
pub open spec fn write_call(
    before: Streams,
    after: Streams,
    mem: Seq<u8>,
    fd: i32,
    buf: i32,
    count: i32,
    r: SysOutcome,
) -> bool {
    let len = count as u32;
    if len == 0 {
        returns_value(r, 0) && after == before
    } else if !guest_range(mem, buf, len as int) {
        returns_value(r, EINVAL) && after == before
    } else {
        let chunk = mem.subrange(addr(buf), addr(buf) + len);
        let stream = fd == 1 || fd == 2 || is_pipe(before.pipes, fd);
        if !stream && !before.fs.closable(fd) {
            returns_value(r, EBADF) && after == before
        } else if !stream && before.fs.host_fds.contains(fd) {
            &&& after == before
            &&& r matches SysOutcome::Host(HostRequest::Write { fd: f, data })
            &&& f == fd
            &&& data@ == chunk
        } else {
            let done = before.with_chunk(fd, chunk);
            &&& after == done.0
            &&& returns_value(
                r,
                match done.1 {
                    Ok(n) => n,
                    Err(e) => e,
                },
            )
        }
    }
}

/// `write`: append `count` bytes from `buf` to a descriptor. A count of 0 writes
/// nothing, a buffer outside memory is `EINVAL`, and a descriptor that is
/// nothing is `EBADF`.
pub fn syscall_write(
    fs: &mut InMemFs,
    procs: &mut Option<ProcessState>,
    out: &mut Vec<u8>,
    mem: &[u8],
    fd: i32,
    buf: i32,
    count: i32,
) -> (r: SysOutcome)
    requires
        old(fs).wf(),
    ensures
        final(fs).wf(),
        write_call(
            streams(*old(fs), *old(procs), *old(out)),
            streams(*final(fs), *final(procs), *final(out)),
            mem@,
            fd,
            buf,
            count,
            r,
        ),
{
    let len: usize = count as u32 as usize;
    if len == 0 {
        return SysOutcome::Return(0);
    }
    let chunk = match crate::bytes::read_bytes(mem, buf, len) {
        Some(c) => c,
        None => {
            return SysOutcome::Return(EINVAL);
        },
    };
    if fd != 1 && fd != 2 && !pipe_fd(procs, fd) {
        if !fs.is_fs_fd(fd) {
            return SysOutcome::Return(EBADF);
        }
        if fs.is_host_fd(fd) {
            return SysOutcome::Host(HostRequest::Write { fd, data: chunk });
        }
    }
    match put_chunk(fs, procs, out, fd, chunk.as_slice()) {
        Ok(n) => SysOutcome::Return(n),
        Err(e) => SysOutcome::Return(e),
    }
}

/// What the guest gets for a `write` of `len` bytes to a host file.
pub open spec fn host_write_told(done: Result<usize, HostErrorKind>, len: usize) -> i32 {
    match done {
        Err(kind) => errno_of(kind),
        Ok(n) => if (n as i32) < 0 {
            n as i32
        } else {
            len as i32
        },
    }
}

/// Complete a `write` of `len` bytes to a host file.
pub fn finish_host_write(done: Result<usize, HostErrorKind>, len: usize) -> (r: i32)
    ensures
        r == host_write_told(done, len),
{
    match done {
        Err(kind) => io_err_to_errno(kind),
        Ok(n) => {
            let k: i32 = n as i32;
            if k < 0 {
                k
            } else {
                len as i32
            }
        },
    }
}

/// What `pread64` does to memory.
pub open spec fn pread_call(
    fs: FsView,
    before: Seq<u8>,
    after: Seq<u8>,
    fd: i32,
    buf: i32,
    count: i32,
    offset: i64,
    r: SysOutcome,
) -> bool {
    let len = count as u32;
    let same_mem = after == before;
    if len == 0 {
        returns_value(r, 0) && same_mem
    } else if !fs.closable(fd) {
        returns_value(r, EBADF) && same_mem
    } else if fs.host_fds.contains(fd) {
        &&& same_mem
        &&& r matches SysOutcome::Host(HostRequest::ReadAt { fd: f, len: l, offset: o })
        &&& f == fd
        &&& l == len
        &&& o == offset
    } else if (fs.fd(fd)->0.offset as i64) < 0 || offset < 0 || !guest_range(
        before,
        buf,
        len as int,
    ) {
        returns_value(r, EINVAL) && same_mem
    } else {
        match fs.fd_file(fd) {
            Err(e) => returns_value(r, e) && same_mem,
            Ok(data) => {
                let n = read_len(data, offset as u64, len as int);
                &&& returns_value(r, n as i32)
                &&& after == if n <= i32::MAX {
                    splice(
                        before,
                        addr(buf),
                        read_slice(data, offset as u64, len as int),
                    )
                } else {
                    before
                }
            },
        }
    }
}

/// `pread64`: up to `count` bytes at `offset` of a file go to `buf`; the
/// descriptor does not move. A count of 0 reads nothing. A descriptor that is
/// not open is `EBADF`; one that stands beyond the signed range, a negative
/// offset and a buffer outside memory are `EINVAL`.
pub fn syscall_pread64(
    fs: &mut InMemFs,
    mem: &mut [u8],
    fd: i32,
    buf: i32,
    count: i32,
    offset: i64,
) -> (r: SysOutcome)
    requires
        old(fs).wf(),
    ensures
        final(fs).wf(),
        final(fs)@ == old(fs)@,
        pread_call(old(fs)@, old(mem)@, final(mem)@, fd, buf, count, offset, r),
{
    let len: usize = count as u32 as usize;
    if len == 0 {
        return SysOutcome::Return(0);
    }
    if !fs.is_fs_fd(fd) {
        return SysOutcome::Return(EBADF);
    }
    if fs.is_host_fd(fd) {
        return SysOutcome::Host(HostRequest::ReadAt { fd, len, offset });
    }
    let ghost before = fs@;
    let saved: i64 = fs.lseek(fd, 0, 1);
    if saved < 0 {
        return SysOutcome::Return(saved as i32);
    }
    proof {
        let at = before.fd(fd)->0.offset;
        assert((at as i64) >= 0 ==> (at as i64) as u64 == at) by (bit_vector);
        assert(fs@ =~= before) by {
            assert(fs@.fds =~= before.fds);
        }
    }
    if offset < 0 {
        return SysOutcome::Return(EINVAL);
    }
    let start: usize = addr_of(buf);
    if !in_range(mem.len(), start, len) {
        return SysOutcome::Return(EINVAL);
    }
    let mut tmp = zero_bytes(len);
    let n: i32 = fs.pread(fd, tmp.as_mut_slice(), offset as u64);
    proof {
        if before.fd_file(fd) is Ok {
            let data = before.fd_file(fd)->Ok_0;
            let k = read_len(data, offset as u64, len as int);
            lemma_signed_len(k);
            assert(tmp@.subrange(0, k) =~= read_slice(data, offset as u64, len as int));
        }
    }
    if n < 0 {
        return SysOutcome::Return(n);
    }
    write_at(mem, start, &tmp[0..n as usize]);
    SysOutcome::Return(n)
}

/// What seeking a host file gives the guest: the new position, or a negative
/// errno.
pub open spec fn sought(done: Result<u64, HostErrorKind>) -> i64 {
    match done {
        Ok(n) => n as i64,
        Err(kind) => errno_of(kind) as i64,
    }
}

/// Where a `pread64` moves a host file that stands at `at`, or the errno that ends the
/// call.
pub open spec fn host_pread_planned(at: Result<u64, HostErrorKind>, offset: i64) -> Result<
    HostSeek,
    i32,
> {
    if sought(at) < 0 {
        Err(sought(at) as i32)
    } else {
        Ok(
            HostSeek::Start(
                if offset < 0 {
                    0
                } else {
                    offset as u64
                },
            ),
        )
    }
}

/// How a `pread64` of `len` bytes goes on, given how moving its file went.
pub open spec fn host_pread_step(
    mem: Seq<u8>,
    buf: i32,
    len: int,
    moved: Result<u64, HostErrorKind>,
) -> PreadStep {
    if sought(moved) < 0 {
        PreadStep::Return(sought(moved) as i32)
    } else if !guest_range(mem, buf, len) {
        PreadStep::Back(EINVAL)
    } else {
        PreadStep::Read
    }
}

/// Begin a `pread64` from a host file, given where it stands: where to move it, or
/// the errno if it could not tell. A negative offset counts as 0.
pub fn plan_host_pread(at: Result<u64, HostErrorKind>, offset: i64) -> (r: Result<HostSeek, i32>)
    ensures
        r == host_pread_planned(at, offset),
{
    let position: i64 = match at {
        Ok(n) => n as i64,
        Err(kind) => io_err_to_errno(kind) as i64,
    };
    if position < 0 {
        return Err(position as i32);
    }
    plan_host_seek(offset, 0)
}

/// How a `pread64` goes on once its file has been moved.
#[derive(Debug, Clone, Copy, PartialEq, Eq, Structural)]
pub enum PreadStep {
    /// The guest gets this value.
    Return(i32),
    /// Move the file back to where it was; the guest gets this value.
    Back(i32),
    /// Read, and move the file back to where it was; [`finish_host_read`] takes what
    /// was read.
    Read,
}

/// Go on with a `pread64` of `len` bytes from a host file, given how moving it to
/// the offset went: a file that could not be moved answers its errno, and a buffer
/// outside memory is `EINVAL`.
pub fn host_pread_moved(
    mem: &[u8],
    buf: i32,
    len: usize,
    moved: Result<u64, HostErrorKind>,
) -> (r: PreadStep)
    ensures
        r == host_pread_step(mem@, buf, len as int, moved),
{
    let position: i64 = match moved {
        Ok(n) => n as i64,
        Err(kind) => io_err_to_errno(kind) as i64,
    };
    if position < 0 {
        PreadStep::Return(position as i32)
    } else if !in_range(mem.len(), addr_of(buf), len) {
        PreadStep::Back(EINVAL)
    } else {
        PreadStep::Read
    }
}

/// Closing `fd`, host-backed or not: the files afterwards and the result.
pub open spec fn closing(fs: FsView, fd: i32) -> (FsView, i32) {
    if fs.host_fds.contains(fd) {
        (fs.host_closed(fd).0, 0i32)
    } else if fs.closable(fd) {
        (fs.without_fd(fd), 0i32)
    } else {
        (fs, EBADF)
    }
}

/// `close`: release a descriptor, host-backed or not.
pub fn syscall_close(fs: &mut InMemFs, fd: i32) -> (r: i32)
    requires
        old(fs).wf(),
    ensures
        final(fs).wf(),
        (final(fs)@, r) == closing(old(fs)@, fd),
{
    match fs.close_host(fd) {
        Some(r) => r,
        None => fs.close(fd),
    }
}

/// What `lseek` does to the files.
pub open spec fn seek_call(
    before: FsView,
    after: FsView,
    fd: i32,
    offset: i64,
    whence: i32,
    r: SysOutcome,
) -> bool {
    if before.host_fds.contains(fd) {
        &&& after == before
        &&& r matches SysOutcome::Host(HostRequest::Seek { fd: f, offset: o, whence: w })
        &&& f == fd
        &&& o == offset
        &&& w == whence
    } else {
        match before.fd(fd) {
            None => returns_value(r, EBADF) && after == before,
            Some(e) => match seek_target(e.offset, before.fd_size(fd) as u64, offset, whence) {
                Some(t) if t >= 0 => returns_value(r, 0) && after == before.with_offset(
                    fd,
                    t as u64,
                ),
                _ => returns_value(r, EINVAL) && after == before,
            },
        }
    }
}

/// `lseek`: move a descriptor. Returns 0, `EBADF`, or `EINVAL` for an unknown
/// `whence` or a target before the start.
pub fn syscall_lseek(fs: &mut InMemFs, fd: i32, offset: i64, whence: i32) -> (r: SysOutcome)
    requires
        old(fs).wf(),
    ensures
        final(fs).wf(),
        seek_call(old(fs)@, final(fs)@, fd, offset, whence, r),
{
    if fs.is_host_fd(fd) {
        return SysOutcome::Host(HostRequest::Seek { fd, offset, whence });
    }
    let to: i64 = fs.lseek(fd, offset, whence);
    if to < 0 {
        SysOutcome::Return(to as i32)
    } else {
        SysOutcome::Return(0)
    }
}

/// What the guest gets for an `lseek` on a host file.
pub open spec fn host_seek_told(done: Result<u64, HostErrorKind>) -> i32 {
    match done {
        Err(kind) => errno_of(kind),
        Ok(at) => if (at as i64) < 0 {
            (at as i64) as i32
        } else {
            0
        },
    }
}

/// Complete an `lseek` on a host file.
pub fn finish_host_seek(done: Result<u64, HostErrorKind>) -> (r: i32)
    ensures
        r == host_seek_told(done),
{
    match done {
        Err(kind) => io_err_to_errno(kind),
        Ok(at) => {
            let to: i64 = at as i64;
            if to < 0 {
                to as i32
            } else {
                0
            }
        },
    }
}

/// Handing a `struct stat` to the guest: memory afterwards and the result.
pub open spec fn stat_put(mem: Seq<u8>, ptr: i32, record: Seq<u8>) -> (Seq<u8>, i32) {
    if guest_range(mem, ptr, EM_STAT_STRUCT_BYTES as int) {
        (splice(mem, addr(ptr), record), 0i32)
    } else {
        (mem, EINVAL)
    }
}

/// Looking up the node at `abs`: the filesystem and memory afterwards and the
/// result. A node that is found takes an inode number even where its record has
/// no place in memory.
pub open spec fn stat_found(fs: FsView, mem: Seq<u8>, abs: Seq<char>, ptr: i32) -> (
    FsView,
    Seq<u8>,
    i32,
) {
    if fs.nodes.contains_key(abs) {
        let record = fs.stat_of(abs);
        (fs.with_next_ino(), stat_put(mem, ptr, record).0, stat_put(mem, ptr, record).1)
    } else {
        (fs, mem, ENOENT)
    }
}

/// What a stat of the absolute path `abs` does: look it up here, or ask the host
/// if it lies under a mount point.
pub open spec fn stat_done(
    before: (FsView, Seq<u8>),
    after: (FsView, Seq<u8>),
    roots: Seq<Seq<char>>,
    abs: Seq<char>,
    ptr: i32,
    r: SysOutcome,
) -> bool {
    match mount_of(abs, roots) {
        Some(_) => {
            &&& after.0 == before.0
            &&& after.1 == before.1
            &&& r matches SysOutcome::Host(HostRequest::Stat { path })
            &&& path.denotes(abs, roots)
        },
        None => {
            let found = stat_found(before.0, before.1, abs, ptr);
            after.0 == found.0 && after.1 == found.1 && returns_value(r, found.2)
        },
    }
}

/// Look up the absolute path `abs`.
fn stat_abs(
    fs: &mut InMemFs,
    preopens: &Vec<(String, String)>,
    mem: &mut [u8],
    abs: &str,
    ptr: i32,
) -> (r: SysOutcome)
    requires
        old(fs).wf(),
    ensures
        final(fs).wf(),
        stat_done(
            (old(fs)@, old(mem)@),
            (final(fs)@, final(mem)@),
            mounts(preopens@),
            abs@,
            ptr,
            r,
        ),
{
    match resolve_to_host_path(abs, preopens) {
        Some(host) => SysOutcome::Host(HostRequest::Stat { path: host }),
        None => {
            let mut buf = zero_bytes(EM_STAT_STRUCT_BYTES);
            let rc: i32 = fs.stat_into(abs, buf.as_mut_slice());
            if rc != 0 {
                return SysOutcome::Return(rc);
            }
            proof {
                let node = old(fs)@.nodes[abs@];
                lemma_stat_record_len(
                    old(fs)@.next_ino as nat,
                    node_mode(node) as nat,
                    node_size(node),
                );
                assert(buf@ =~= stat_record(
                    old(fs)@.next_ino as nat,
                    node_mode(node) as nat,
                    node_size(node),
                ));
            }
            if write_bytes(mem, ptr, &buf) {
                SysOutcome::Return(0)
            } else {
                SysOutcome::Return(EINVAL)
            }
        },
    }
}

/// `fstat64`: the `struct stat` of what `fd` refers to goes to `stat_ptr`. A
/// host directory has no host file of its own and is looked up by its path.
pub fn syscall_fstat64(
    fs: &mut InMemFs,
    preopens: &Vec<(String, String)>,
    mem: &mut [u8],
    fd: i32,
    stat_ptr: i32,
) -> (r: SysOutcome)
    requires
        old(fs).wf(),
    ensures
        final(fs).wf(),
        if old(fs)@.host_fds.contains(fd) {
            &&& final(fs)@ == old(fs)@
            &&& final(mem)@ == old(mem)@
            &&& r matches SysOutcome::Host(HostRequest::StatFd { fd: f })
            &&& f == fd
        } else {
            match old(fs)@.fd(fd) {
                None => returns_value(r, EBADF) && final(fs)@ == old(fs)@ && final(mem)@
                    == old(mem)@,
                Some(e) => stat_done(
                    (old(fs)@, old(mem)@),
                    (final(fs)@, final(mem)@),
                    mounts(preopens@),
                    e.path,
                    stat_ptr,
                    r,
                ),
            }
        },
{
    if fs.is_host_fd(fd) {
        return SysOutcome::Host(HostRequest::StatFd { fd });
    }
    let path = match fs.fd_path(fd) {
        None => {
            return SysOutcome::Return(EBADF);
        },
        Some(p) => crate::text::concat(p, ""),
    };
    proof {
        reveal_strlit("");
        assert(path@ =~= old(fs)@.fd(fd)->0.path);
    }
    stat_abs(fs, preopens, mem, path.as_str(), stat_ptr)
}

/// `stat64` on a path that has been read from memory: note it in the log and
/// look it up.
pub fn stat64_path(
    fs: &mut InMemFs,
    log: &mut PathLog,
    preopens: &Vec<(String, String)>,
    mem: &mut [u8],
    path: &str,
    stat_ptr: i32,
) -> (r: SysOutcome)
    requires
        old(fs).wf(),
    ensures
        final(fs).wf(),
        final(log)@ == ring_push(
            old(log)@,
            "stat64:"@ + resolved(seq!['/'], path@),
            PATH_LOG_CAP as nat,
        ),
        stat_done(
            (old(fs)@, old(mem)@),
            (final(fs)@, final(mem)@),
            mounts(preopens@),
            resolved(seq!['/'], path@),
            stat_ptr,
            r,
        ),
{
    proof {
        reveal_strlit("/");
        assert("/"@ =~= seq!['/']);
    }
    let abs = fs.resolve("/", path);
    log.push("stat64:", abs.as_str());
    stat_abs(fs, preopens, mem, abs.as_str(), stat_ptr)
}

/// `stat64`: look up the path at `pathptr`.
pub fn syscall_stat64(
    fs: &mut InMemFs,
    log: &mut PathLog,
    preopens: &Vec<(String, String)>,
    mem: &mut [u8],
    pathptr: i32,
    stat_ptr: i32,
) -> (r: SysOutcome)
    requires
        old(fs).wf(),
    ensures
        final(fs).wf(),
        match text_at(old(mem)@, pathptr) {
            None => returns_value(r, ENOENT) && final(fs)@ == old(fs)@ && final(log)@
                == old(log)@ && final(mem)@ == old(mem)@,
            Some(path) => {
                &&& final(log)@ == ring_push(
                    old(log)@,
                    "stat64:"@ + resolved(seq!['/'], path),
                    PATH_LOG_CAP as nat,
                )
                &&& stat_done(
                    (old(fs)@, old(mem)@),
                    (final(fs)@, final(mem)@),
                    mounts(preopens@),
                    resolved(seq!['/'], path),
                    stat_ptr,
                    r,
                )
            },
        },
{
    match read_cstr(mem, pathptr) {
        None => SysOutcome::Return(ENOENT),
        Some(path) => stat64_path(fs, log, preopens, mem, path.as_str(), stat_ptr),
    }
}

/// What a stat of a path given relative to `dirfd` does.
pub open spec fn fstatat_done(
    before: (FsView, Seq<u8>),
    after: (FsView, Seq<u8>),
    roots: Seq<Seq<char>>,
    dirfd: i32,
    path: Seq<char>,
    ptr: i32,
    r: SysOutcome,
) -> bool {
    match path_at(before.0, dirfd, path) {
        Err(e) => returns_value(r, e) && after.0 == before.0 && after.1 == before.1,
        Ok(abs) => stat_done(before, after, roots, abs, ptr, r),
    }
}

/// `newfstatat` on a path that has been read from memory.
pub fn fstatat_path(
    fs: &mut InMemFs,
    preopens: &Vec<(String, String)>,
    mem: &mut [u8],
    dirfd: i32,
    path: &str,
    stat_ptr: i32,
) -> (r: SysOutcome)
    requires
        old(fs).wf(),
    ensures
        final(fs).wf(),
        fstatat_done(
            (old(fs)@, old(mem)@),
            (final(fs)@, final(mem)@),
            mounts(preopens@),
            dirfd,
            path@,
            stat_ptr,
            r,
        ),
{
    match resolve_at(fs, dirfd, path) {
        Err(e) => SysOutcome::Return(e),
        Ok(abs) => stat_abs(fs, preopens, mem, abs.as_str(), stat_ptr),
    }
}

/// `newfstatat`: look up the path at `pathptr`, relative to `dirfd`.
pub fn syscall_newfstatat(
    fs: &mut InMemFs,
    preopens: &Vec<(String, String)>,
    mem: &mut [u8],
    dirfd: i32,
    pathptr: i32,
    stat_ptr: i32,
) -> (r: SysOutcome)
    requires
        old(fs).wf(),
    ensures
        final(fs).wf(),
        match text_at(old(mem)@, pathptr) {
            None => returns_value(r, ENOENT) && final(fs)@ == old(fs)@ && final(mem)@
                == old(mem)@,
            Some(path) => fstatat_done(
                (old(fs)@, old(mem)@),
                (final(fs)@, final(mem)@),
                mounts(preopens@),
                dirfd,
                path,
                stat_ptr,
                r,
            ),
        },
{
    match read_cstr(mem, pathptr) {
        None => SysOutcome::Return(ENOENT),
        Some(path) => fstatat_path(fs, preopens, mem, dirfd, path.as_str(), stat_ptr),
    }
}

/// `lstat64`: there are no symbolic links, so this is a lookup of the path at
/// `pathptr` from the root. Where the host has to look, `finish_host_lstat`
/// completes it.
pub fn syscall_lstat64(
    fs: &mut InMemFs,
    preopens: &Vec<(String, String)>,
    mem: &mut [u8],
    pathptr: i32,
    stat_ptr: i32,
) -> (r: SysOutcome)
    requires
        old(fs).wf(),
    ensures
        final(fs).wf(),
        match text_at(old(mem)@, pathptr) {
            None => returns_value(r, ENOENT) && final(fs)@ == old(fs)@ && final(mem)@
                == old(mem)@,
            Some(path) => stat_done(
                (old(fs)@, old(mem)@),
                (final(fs)@, final(mem)@),
                mounts(preopens@),
                resolved(seq!['/'], path),
                stat_ptr,
                r,
            ),
        },
{
    syscall_newfstatat(fs, preopens, mem, AT_FDCWD, pathptr, stat_ptr)
}

/// Complete a stat with what the host said.
pub fn finish_host_stat(
    mem: &mut [u8],
    stat_ptr: i32,
    meta: Result<HostMeta, HostErrorKind>,
) -> (r: i32)
    ensures
        match meta {
            Err(kind) => r == errno_of(kind) && final(mem)@ == old(mem)@,
            Ok(m) => (final(mem)@, r) == stat_put(old(mem)@, stat_ptr, m.record()),
        },
{
    match meta {
        Err(kind) => io_err_to_errno(kind),
        Ok(m) => {
            let mut buf = zero_bytes(EM_STAT_STRUCT_BYTES);
            m.write(buf.as_mut_slice());
            proof {
                m.lemma_record_len();
                assert(buf@ =~= m.record());
            }
            if write_bytes(mem, stat_ptr, &buf) {
                0
            } else {
                EINVAL
            }
        },
    }
}

/// Complete an `lstat64` with what the host said. A path that does not exist yet in
/// a directory that does reads as an empty regular file, so that the guest's
/// `realpath` goes on instead of failing.
pub fn finish_host_lstat(
    fs: &mut InMemFs,
    mem: &mut [u8],
    stat_ptr: i32,
    meta: Result<HostMeta, HostErrorKind>,
    parent_is_dir: bool,
) -> (r: i32)
    requires
        old(fs).wf(),
    ensures
        final(fs).wf(),
        match meta {
            Ok(m) => final(fs)@ == old(fs)@ && (final(mem)@, r) == stat_put(
                old(mem)@,
                stat_ptr,
                m.record(),
            ),
            Err(HostErrorKind::NotFound) if parent_is_dir => final(fs)@ == old(
                fs,
            )@.with_next_ino() && (final(mem)@, r) == stat_put(
                old(mem)@,
                stat_ptr,
                stat_record(old(fs)@.next_ino as nat, 0o100644, 0),
            ),
            Err(kind) => r == errno_of(kind) && final(fs)@ == old(fs)@ && final(mem)@ == old(mem)@,
        },
{
    let mut buf = zero_bytes(EM_STAT_STRUCT_BYTES);
    let rc: i32 = fs.stat_host_path_for_lstat(meta, parent_is_dir, buf.as_mut_slice());
    if rc != 0 {
        return rc;
    }
    proof {
        lemma_stat_record_len(old(fs)@.next_ino as nat, 0o100644, 0);
        if meta is Ok {
            meta->Ok_0.lemma_record_len();
            assert(buf@ =~= meta->Ok_0.record());
        } else {
            assert(buf@ =~= stat_record(old(fs)@.next_ino as nat, 0o100644, 0));
        }
    }
    if write_bytes(mem, stat_ptr, &buf) {
        0
    } else {
        EINVAL
    }
}

/// Handing directory records to the guest: memory afterwards and the result.
/// The cursor has moved by then, also where there is no place for them.
pub open spec fn records_put(mem: Seq<u8>, ptr: i32, bytes: Seq<u8>) -> (Seq<u8>, i32) {
    if bytes.len() == 0 {
        (mem, 0i32)
    } else if bytes.len() <= i32::MAX && guest_range(mem, ptr, bytes.len() as int) {
        (splice(mem, addr(ptr), bytes), bytes.len() as i32)
    } else {
        (mem, EINVAL)
    }
}

/// What `getdents64` does to the files and to memory.
pub open spec fn getdents_call(
    before: (FsView, Seq<u8>),
    after: (FsView, Seq<u8>),
    roots: Seq<Seq<char>>,
    fd: i32,
    dirp: i32,
    count: i32,
    r: SysOutcome,
) -> bool {
    if before.0.fd(fd) is Some && mount_of(
        before.0.fd(fd)->0.path,
        roots,
    ) is Some {
        &&& after.0 == before.0
        &&& after.1 == before.1
        &&& r matches SysOutcome::Host(HostRequest::ListDir { path })
        &&& path.denotes(before.0.fd(fd)->0.path, roots)
    } else {
        match before.0.dir_entries(fd) {
            Err(e) => returns_value(r, e) && after.0 == before.0 && after.1
                == before.1,
            Ok(l) => {
                let e = before.0.fd(fd)->0;
                let to = fitting(l, e.dir_cursor as int, count as u32 as int);
                let bytes = records(l, DIRENT_INO_BASE as nat, e.dir_cursor as int, to);
                let put = records_put(before.1, dirp, bytes);
                &&& after.0 == before.0.with_entry(
                    fd,
                    FdView { dir_cursor: to as usize, ..e },
                )
                &&& after.1 == put.0
                &&& returns_value(
                    r,
                    if bytes.len() > i32::MAX {
                        bytes.len() as i32
                    } else {
                        put.1
                    },
                )
            },
        }
    }
}

/// `getdents64` on a directory in memory hands out the records that reading it on gives,
/// as many as fit in `count` bytes: they stand at `dirp`, the guest gets their length, and
/// the descriptor moves behind them.
pub proof fn law_getdents_hands_out_records(
    before: (FsView, Seq<u8>),
    after: (FsView, Seq<u8>),
    roots: Seq<Seq<char>>,
    fd: i32,
    dirp: i32,
    count: i32,
    r: SysOutcome,
)
    requires
        getdents_call(before, after, roots, fd, dirp, count, r),
        before.0.dir_entries(fd) is Ok,
        mount_of(before.0.fd(fd)->0.path, roots) is None,
        0 <= count,
        dirp as u32 + count <= before.1.len(),
        before.0.fd(fd)->0.dir_cursor <= before.0.dir_entries(fd)->Ok_0.len(),
    ensures
        ({
            let (read, bytes) = before.0.dir_read(
                fd,
                before.0.dir_entries(fd)->Ok_0,
                count as int,
            );
            let at = dirp as u32 as int;
            &&& r matches SysOutcome::Return(v) && v == bytes.len()
            &&& bytes.len() <= count
            &&& after.0 == read
            &&& after.1.len() == before.1.len()
            &&& after.1.subrange(at, at + bytes.len()) == bytes
            &&& after.1.take(at) == before.1.take(at)
            &&& after.1.skip(at + bytes.len()) == before.1.skip(at + bytes.len())
        }),
{
    let l = before.0.dir_entries(fd)->Ok_0;
    let e = before.0.fd(fd)->0;
    assert(count as u32 == count);
    lemma_records_fit(l, DIRENT_INO_BASE as nat, e.dir_cursor as int, count as int);
    let bytes = before.0.dir_read(fd, l, count as int).1;
    let at = dirp as u32 as int;
    law_records_reach_guest(before.1, dirp, bytes);
    assert(after.1.subrange(at, at + bytes.len()) =~= bytes);
    assert(after.1.take(at) =~= before.1.take(at));
    assert(after.1.skip(at + bytes.len()) =~= before.1.skip(at + bytes.len()));
}

/// `getdents64`: up to `count` bytes of records of the directory `fd` go to
/// `dirp`, from where the descriptor's cursor stands. Returns the bytes written,
/// 0 at the end.
pub fn syscall_getdents64(
    fs: &mut InMemFs,
    preopens: &Vec<(String, String)>,
    mem: &mut [u8],
    fd: i32,
    dirp: i32,
    count: i32,
) -> (r: SysOutcome)
    requires
        old(fs).wf(),
    ensures
        final(fs).wf(),
        getdents_call(
            (old(fs)@, old(mem)@),
            (final(fs)@, final(mem)@),
            mounts(preopens@),
            fd,
            dirp,
            count,
            r,
        ),
{
    let room: usize = count as u32 as usize;
    match fs.fd_path(fd) {
        Some(p) => {
            match resolve_to_host_path(p, preopens) {
                Some(host) => {
                    return SysOutcome::Host(HostRequest::ListDir { path: host });
                },
                None => {},
            }
        },
        None => {},
    }
    let mut out = zero_bytes(room);
    let n: i32 = fs.getdents64_into(fd, out.as_mut_slice());
    let ghost mut bytes = Seq::<u8>::empty();
    proof {
        if old(fs)@.dir_entries(fd) is Ok {
            let l = old(fs)@.dir_entries(fd)->Ok_0;
            let at = old(fs)@.fd(fd)->0.dir_cursor as int;
            if at <= l.len() {
                lemma_records_fit(l, DIRENT_INO_BASE as nat, at, room as int);
            }
            let to = fitting(l, at, room as int);
            bytes = records(l, DIRENT_INO_BASE as nat, at, to);
            assert(bytes.len() <= room);
            lemma_signed_len(bytes.len() as int);
            assert(out@.subrange(0, bytes.len() as int) =~= bytes);
        }
    }
    if n <= 0 {
        return SysOutcome::Return(n);
    }
    if write_bytes(mem, dirp, &out[0..n as usize]) {
        SysOutcome::Return(n)
    } else {
        SysOutcome::Return(EINVAL)
    }
}

/// Complete a `getdents64` on a host directory with its entries in order, or
/// `None` if it could not be listed.
pub fn finish_getdents64(
    fs: &mut InMemFs,
    mem: &mut [u8],
    fd: i32,
    dirp: i32,
    count: i32,
    entries: Option<Vec<(String, bool)>>,
) -> (r: i32)
    requires
        old(fs).wf(),
    ensures
        final(fs).wf(),
        match entries {
            None => r == ENOTDIR && final(fs)@ == old(fs)@ && final(mem)@ == old(mem)@,
            Some(children) => {
                let l = with_dots(entry_views(children@));
                let at = old(fs)@.dir_position(fd) as int;
                let to = fitting(l, at, count as u32 as int);
                let bytes = records(l, HOST_DIRENT_INO_BASE as nat, at, to);
                &&& (final(mem)@, r) == records_put(old(mem)@, dirp, bytes)
                &&& final(fs)@ == match old(fs)@.fd(fd) {
                    Some(e) if !old(fs)@.is_file_fd(fd) => old(fs)@.with_entry(
                        fd,
                        FdView { dir_cursor: to as usize, ..e },
                    ),
                    _ => old(fs)@,
                }
            },
        },
{
    let room: usize = count as u32 as usize;
    let children = match entries {
        None => {
            return ENOTDIR;
        },
        Some(c) => c,
    };
    let ghost l = with_dots(entry_views(children@));
    let ghost before = fs@;
    let listed = add_dots(children);
    let cursor: usize = fs.fd_dir_cursor(fd);
    if cursor >= listed.len() {
        proof {
            if before.fd(fd) is Some {
                assert(before.with_entry(fd, before.fd(fd)->0).fds =~= before.fds);
            }
        }
        return 0;
    }
    proof {
        law_fitting_progress(l, cursor as int, room as int);
        lemma_records_fit(l, HOST_DIRENT_INO_BASE as nat, cursor as int, room as int);
    }
    let mut out = zero_bytes(room);
    let (pos, to): (usize, usize) = write_entries(
        out.as_mut_slice(),
        &listed,
        cursor,
        HOST_DIRENT_INO_BASE,
    );
    fs.advance_fd_dir_cursor(fd, to - cursor);
    proof {
        let bytes = records(l, HOST_DIRENT_INO_BASE as nat, cursor as int, to as int);
        assert(out@.subrange(0, pos as int) =~= bytes);
    }
    if pos == 0 {
        return 0;
    }
    if pos <= 0x7fff_ffff && write_bytes(mem, dirp, &out[0..pos]) {
        pos as i32
    } else {
        EINVAL
    }
}

/// A path that begins with a slash means the same from any descriptor, and one given
/// from the working directory is taken from the root. Any other one is taken from the
/// path of the descriptor, which has to be open: else it is `EBADF`.
pub proof fn law_paths_start_at_descriptor(fs: FsView, dirfd: i32, path: Seq<char>)
    ensures
        path.len() > 0 && path[0] == '/' ==> path_at(fs, dirfd, path) == Ok::<Seq<char>, i32>(
            canonical(path),
        ),
        path.len() == 0 || path[0] != '/' ==> {
            &&& dirfd == -100 ==> path_at(fs, dirfd, path) == Ok::<Seq<char>, i32>(
                canonical(seq!['/', '/'] + path),
            )
            &&& dirfd != -100 && fs.fd(dirfd) is Some ==> path_at(fs, dirfd, path) == Ok::<
                Seq<char>,
                i32,
            >(canonical(fs.fd(dirfd)->0.path + seq!['/'] + path))
            &&& dirfd != -100 && fs.fd(dirfd) is None ==> (path_at(fs, dirfd, path) matches Err(e) && e
                == -9)
        },
{
    assert(seq!['/'].push('/') =~= seq!['/', '/']);
    if fs.fd(dirfd) is Some {
        let base = fs.fd(dirfd)->0.path;
        assert(base.push('/') =~= base + seq!['/']);
    }
}

/// `openat` of a canonical path that no mount point holds opens the node there, as
/// opening does; one that a mount point holds is handed to the host under its guest
/// path, with the flags that the guest gave, and changes no file. Either way the path
/// is noted.
pub proof fn law_openat_opens_or_asks(
    before: (FsView, Seq<Seq<char>>),
    after: (FsView, Seq<Seq<char>>),
    roots: Seq<Seq<char>>,
    dirfd: i32,
    path: Seq<char>,
    flags: i32,
    r: SysOutcome,
)
    requires
        openat_done(before, after, roots, dirfd, path, flags, r),
        is_canonical(path),
        path.len() > 0,
        path[0] == '/',
    ensures
        after.1.len() > 0,
        after.1.last() == "openat:"@ + path,
        (forall|j: int|
            0 <= j < roots.len() ==> !goes_on_behind(path, trim_slashes(#[trigger] roots[j]))) ==> {
            &&& after.0 == before.0.opened(path, flags).0
            &&& r == SysOutcome::Return(before.0.opened(path, flags).1)
        },
        forall|j: int|
            0 <= j < roots.len() && goes_on_behind(path, trim_slashes(#[trigger] roots[j])) ==> {
                &&& after.0 == before.0
                &&& r matches SysOutcome::Host(HostRequest::Open { guest, path: host, flags: f })
                &&& guest@ == path
                &&& host.root <= j
                &&& f == flags
            },
{
    law_canonical_fixes_canonical(path);
    law_first_mount_holds(path, roots, 0);
}

/// After `mkdirat` of a path that no mount point holds there is a node there, a
/// directory if there was none before, and the guest gets 0.
pub proof fn law_mkdirat_makes(
    before: FsView,
    after: FsView,
    roots: Seq<Seq<char>>,
    dirfd: i32,
    path: Seq<char>,
    other: Seq<char>,
    r: SysOutcome,
)
    requires
        mkdirat_done(before, after, roots, dirfd, path, r),
        path.len() > 0,
        path[0] == '/',
        mount_of(canonical(path), roots) is None,
    ensures
        r == SysOutcome::Return(0),
        after.nodes.contains_key(canonical(path)),
        !before.nodes.contains_key(canonical(path)) ==> after.nodes[canonical(path)] is Dir,
        before.nodes.contains_key(other) ==> after.nodes.contains_key(other) && after.nodes[other]
            == before.nodes[other],
        after.fds == before.fds,
{
    law_canonical_idempotent(path);
    law_mkdir_keeps_and_makes(before.nodes, canonical(path), other);
}

/// `faccessat` of a path that no mount point holds is 0 exactly if there is a node, and
/// `ENOENT` otherwise.
pub proof fn law_faccessat_tells(
    fs: FsView,
    roots: Seq<Seq<char>>,
    dirfd: i32,
    path: Seq<char>,
    r: SysOutcome,
)
    requires
        faccessat_done(fs, roots, dirfd, path, r),
        path.len() > 0,
        path[0] == '/',
        mount_of(canonical(path), roots) is None,
    ensures
        r matches SysOutcome::Return(v) && v == if fs.nodes.contains_key(canonical(path)) {
            0int
        } else {
            -2int
        },
{
}

/// `read` from a file in memory into a buffer of the guest gives the bytes from where
/// the descriptor stands on, as many as are asked for or are left, at the buffer; the
/// guest gets their number, by which the descriptor moves. The rest of memory, the
/// files and the pipes are as they were.
pub proof fn law_read_fills_buffer(
    before: (FsView, Option<ProcessView>, Seq<u8>),
    after: (FsView, Option<ProcessView>, Seq<u8>),
    fd: i32,
    buf: i32,
    count: i32,
    r: SysOutcome,
    i: int,
)
    requires
        read_call(before, after, fd, buf, count, r),
        0 < count,
        buf as u32 + count <= before.2.len(),
        !is_pipe(before.1, fd),
        !before.0.host_fds.contains(fd),
        before.0.fd_file(fd) is Ok,
        before.0.fd_file(fd)->Ok_0.len() <= u64::MAX,
        0 <= i < before.2.len(),
    ensures
        ({
            let data = before.0.fd_file(fd)->Ok_0;
            let at = before.0.fd(fd)->0.offset;
            let left = if at <= data.len() {
                data.len() - at
            } else {
                0
            };
            let n = if count <= left {
                count as int
            } else {
                left
            };
            let start = buf as u32 as int;
            &&& r matches SysOutcome::Return(v) && v == n
            &&& after.2.len() == before.2.len()
            &&& start <= i < start + n ==> after.2[i] == data[at + (i - start)]
            &&& !(start <= i < start + n) ==> after.2[i] == before.2[i]
            &&& after.0.fd(fd) is Some
            &&& after.0.fd(fd)->0.offset == at + n
            &&& after.0.nodes == before.0.nodes
            &&& after.1 == before.1
        }),
{
    assert(count as u32 == count);
}

/// `read` from a pipe takes the oldest bytes out of it, as many as are asked for or are
/// waiting, and lays them at the buffer.
pub proof fn law_read_takes_from_pipe(
    before: (FsView, Option<ProcessView>, Seq<u8>),
    after: (FsView, Option<ProcessView>, Seq<u8>),
    fd: i32,
    buf: i32,
    count: i32,
    r: SysOutcome,
)
    requires
        read_call(before, after, fd, buf, count, r),
        0 < count,
        buf as u32 + count <= before.2.len(),
        before.1 is Some,
        before.1->0.is_end(fd, PipeEnd::Read),
    ensures
        ({
            let q = before.1->0.waiting(fd);
            let n = if count <= q.len() {
                count as int
            } else {
                q.len() as int
            };
            let start = buf as u32 as int;
            &&& r matches SysOutcome::Return(v) && v == n
            &&& after.1 is Some
            &&& after.1->0.waiting(fd) == q.skip(n)
            &&& after.2.len() == before.2.len()
            &&& after.2.subrange(start, start + n) == q.take(n)
            &&& after.2.take(start) == before.2.take(start)
            &&& after.2.skip(start + n) == before.2.skip(start + n)
            &&& after.0 == before.0
        }),
{
    let p = before.1->0;
    let q = p.waiting(fd);
    let n = p.readable(fd, count as nat) as int;
    let start = buf as u32 as int;
    assert(count as u32 == count);
    assert(q.skip(0) =~= q);
    assert(after.2.subrange(start, start + n) =~= q.take(n));
    assert(after.2.take(start) =~= before.2.take(start));
    assert(after.2.skip(start + n) =~= before.2.skip(start + n));
}

/// A read of nothing gives 0, and one whose buffer leaves memory `EINVAL`; neither
/// changes anything.
pub proof fn law_read_needs_buffer(
    before: (FsView, Option<ProcessView>, Seq<u8>),
    after: (FsView, Option<ProcessView>, Seq<u8>),
    fd: i32,
    buf: i32,
    count: i32,
    r: SysOutcome,
)
    requires
        read_call(before, after, fd, buf, count, r),
        count == 0 || (count > 0 && buf as u32 + count > before.2.len()),
    ensures
        r matches SysOutcome::Return(v) && v == if count == 0 {
            0int
        } else {
            -22int
        },
        after.0 == before.0,
        after.1 == before.1,
        after.2 == before.2,
{
    if count > 0 {
        assert(count as u32 == count);
    }
}

/// `pread64` lays the bytes of the file from `offset` on at the buffer, as many as are
/// asked for or are left, and tells their number.
pub proof fn law_pread_fills_buffer(
    fs: FsView,
    before: Seq<u8>,
    after: Seq<u8>,
    fd: i32,
    buf: i32,
    count: i32,
    offset: i64,
    r: SysOutcome,
    i: int,
)
    requires
        pread_call(fs, before, after, fd, buf, count, offset, r),
        0 < count,
        0 <= offset,
        buf as u32 + count <= before.len(),
        fd >= 3,
        !fs.host_fds.contains(fd),
        fs.fd_file(fd) is Ok,
        fs.fd(fd)->0.offset <= i64::MAX,
        0 <= i < before.len(),
    ensures
        ({
            let data = fs.fd_file(fd)->Ok_0;
            let left = if offset <= data.len() {
                data.len() - offset
            } else {
                0
            };
            let n = if count <= left {
                count as int
            } else {
                left
            };
            let start = buf as u32 as int;
            &&& r matches SysOutcome::Return(v) && v == n
            &&& after.len() == before.len()
            &&& start <= i < start + n ==> after[i] == data[offset + (i - start)]
            &&& !(start <= i < start + n) ==> after[i] == before[i]
        }),
{
    assert(count as u32 == count);
}

/// What is written to standard output or error is captured behind what was, to the
/// write end of a pipe goes behind what is waiting there, and to a file in memory
/// behind what it holds. Either way the guest gets the length, and nothing else
/// changes.
pub proof fn law_chunk_reaches_its_stream(s: Streams, fd: i32, chunk: Seq<u8>)
    requires
        chunk.len() <= i32::MAX,
    ensures
        ({
            let (t, r) = s.with_chunk(fd, chunk);
            let piped = s.pipes is Some && s.pipes->0.pipes.contains_key(fd);
            let writes = s.pipes is Some && s.pipes->0.is_end(fd, PipeEnd::Write);
            let stream = fd == 1 || fd == 2;
            &&& stream ==> t.out == s.out + chunk && t.fs == s.fs && t.pipes == s.pipes && r is Ok
                && r->Ok_0 == chunk.len()
            &&& !stream && writes ==> {
                &&& r is Ok && r->Ok_0 == chunk.len()
                &&& t.out == s.out && t.fs == s.fs && t.pipes is Some
                &&& t.pipes->0.waiting(fd) == s.pipes->0.waiting(fd) + chunk
                &&& t.pipes->0.pipes == s.pipes->0.pipes
            }
            &&& !stream && piped && !writes ==> t == s && (r matches Err(e) && e == -9)
            &&& !stream && !piped && fd >= 3 && s.fs.fd_file(fd) is Ok ==> {
                &&& r is Ok && r->Ok_0 == chunk.len()
                &&& t.out == s.out && t.pipes == s.pipes
                &&& t.fs.fd_file(fd) == Ok::<Seq<u8>, i32>(s.fs.fd_file(fd)->Ok_0 + chunk)
                &&& t.fs == s.fs.appended(fd, chunk).0
            }
            &&& !stream && !piped && (fd < 3 || s.fs.fd(fd) is None) ==> t == s && r is Ok
                && r->Ok_0 == chunk.len()
        }),
{
}

/// Chunks that are written to standard output or error in turn are captured joined, in
/// their order, and the guest gets their total length.
pub proof fn law_chunks_join_in_output(s: Streams, fd: i32, chunks: Seq<Seq<u8>>, total: i32)
    requires
        fd == 1 || fd == 2,
        0 <= total,
        total + chunks.flatten().len() <= i32::MAX,
    ensures
        ({
            let (t, r) = s.with_chunks(fd, chunks, total);
            &&& t.out == s.out + chunks.flatten()
            &&& t.fs == s.fs
            &&& t.pipes == s.pipes
            &&& r is Ok && r->Ok_0 == total + chunks.flatten().len()
        }),
    decreases chunks.len(),
{
    if chunks.len() == 0 {
        assert(s.out + chunks.flatten() =~= s.out);
    } else {
        let rest = chunks.skip(1);
        assert(rest =~= chunks.drop_first());
        assert(chunks.flatten() == chunks[0] + rest.flatten());
        let t = s.with_chunk(fd, chunks[0]).0;
        let sum = (total + chunks[0].len()) as i32;
        law_chunks_join_in_output(t, fd, rest, sum);
        assert((s.out + chunks[0]) + rest.flatten() =~= s.out + chunks.flatten());
    }
}

/// Chunks that are written to a file in memory in turn stand behind what it holds,
/// joined, in their order, and the guest gets their total length.
pub proof fn law_chunks_join_in_file(s: Streams, fd: i32, chunks: Seq<Seq<u8>>, total: i32)
    requires
        fd >= 3,
        !is_pipe(s.pipes, fd),
        s.fs.fd_file(fd) is Ok,
        0 <= total,
        total + chunks.flatten().len() <= i32::MAX,
    ensures
        ({
            let (t, r) = s.with_chunks(fd, chunks, total);
            &&& t.fs.fd_file(fd) == Ok::<Seq<u8>, i32>(s.fs.fd_file(fd)->Ok_0 + chunks.flatten())
            &&& t.out == s.out
            &&& t.pipes == s.pipes
            &&& r is Ok && r->Ok_0 == total + chunks.flatten().len()
        }),
    decreases chunks.len(),
{
    let file = s.fs.fd_file(fd)->Ok_0;
    if chunks.len() == 0 {
        assert(file + chunks.flatten() =~= file);
    } else {
        let rest = chunks.skip(1);
        assert(rest =~= chunks.drop_first());
        assert(chunks.flatten() == chunks[0] + rest.flatten());
        law_chunk_reaches_its_stream(s, fd, chunks[0]);
        let t = s.with_chunk(fd, chunks[0]).0;
        let sum = (total + chunks[0].len()) as i32;
        law_chunks_join_in_file(t, fd, rest, sum);
        assert((file + chunks[0]) + rest.flatten() =~= file + chunks.flatten());
    }
}

/// Chunks that are written to a pipe in turn wait behind what is there, joined, in
/// their order, and the guest gets their total length.
pub proof fn law_chunks_join_in_pipe(s: Streams, fd: i32, chunks: Seq<Seq<u8>>, total: i32)
    requires
        fd != 1,
        fd != 2,
        s.pipes is Some,
        s.pipes->0.is_end(fd, PipeEnd::Write),
        0 <= total,
        total + chunks.flatten().len() <= i32::MAX,
    ensures
        ({
            let (t, r) = s.with_chunks(fd, chunks, total);
            &&& t.pipes is Some
            &&& t.pipes->0.waiting(fd) == s.pipes->0.waiting(fd) + chunks.flatten()
            &&& t.out == s.out
            &&& t.fs == s.fs
            &&& r is Ok && r->Ok_0 == total + chunks.flatten().len()
        }),
    decreases chunks.len(),
{
    let q = s.pipes->0.waiting(fd);
    if chunks.len() == 0 {
        assert(q + chunks.flatten() =~= q);
    } else {
        let rest = chunks.skip(1);
        assert(rest =~= chunks.drop_first());
        assert(chunks.flatten() == chunks[0] + rest.flatten());
        law_chunk_reaches_its_stream(s, fd, chunks[0]);
        let t = s.with_chunk(fd, chunks[0]).0;
        let sum = (total + chunks[0].len()) as i32;
        law_chunks_join_in_pipe(t, fd, rest, sum);
        assert((q + chunks[0]) + rest.flatten() =~= q + chunks.flatten());
    }
}

/// The buffers of a list are those of its front, and then those of its rest; that of
/// one description is the bytes of memory that it names, by address and length, and
/// there is none for a length of 0. A buffer that leaves memory ends the list, which is
/// then not complete.
pub proof fn law_buffers_are_listed(mem: Seq<u8>, off: int, k: int, n: int)
    requires
        0 <= k <= n,
    ensures
        buffers(mem, off, k).1 ==> buffers(mem, off, n).0 == buffers(mem, off, k).0 + buffers(
            mem,
            off + 8 * k,
            n - k,
        ).0 && buffers(mem, off, n).1 == buffers(mem, off + 8 * k, n - k).1,
        !buffers(mem, off, k).1 ==> buffers(mem, off, n) == buffers(mem, off, k),
        n == 0 ==> buffers(mem, off, n).0.len() == 0 && buffers(mem, off, n).1,
        n == 1 ==> {
            let ptr = word_at(mem, off) as int;
            let len = word_at(mem, off + 4) as int;
            &&& len == 0 ==> buffers(mem, off, n).0.len() == 0 && buffers(mem, off, n).1
            &&& len > 0 && ptr + len > mem.len() ==> buffers(mem, off, n).0.len() == 0 && !buffers(
                mem,
                off,
                n,
            ).1
            &&& len > 0 && ptr + len <= mem.len() ==> buffers(mem, off, n).0 == seq![
                mem.subrange(ptr, ptr + len),
            ] && buffers(mem, off, n).1
        },
    decreases n,
{
    reveal_with_fuel(buffers, 2);
    if n == 1 {
        let ptr = word_at(mem, off) as int;
        let len = word_at(mem, off + 4) as int;
        assert(seq![mem.subrange(ptr, ptr + len)] + Seq::<Seq<u8>>::empty() =~= seq![
            mem.subrange(ptr, ptr + len),
        ]);
    }
    if k == 0 {
        assert(Seq::<Seq<u8>>::empty() + buffers(mem, off, n).0 =~= buffers(mem, off, n).0);
    } else {
        law_buffers_are_listed(mem, off + 8, k - 1, n - 1);
        assert(off + 8 + 8 * (k - 1) == off + 8 * k);
        let ptr = word_at(mem, off) as int;
        let len = word_at(mem, off + 4) as int;
        let piece = seq![mem.subrange(ptr, ptr + len)];
        let mid = buffers(mem, off + 8, k - 1).0;
        let last = buffers(mem, off + 8 * k, n - k).0;
        assert(piece + (mid + last) =~= (piece + mid) + last);
    }
}

/// `write` of a buffer inside memory to standard output or error captures just the
/// `count` bytes at `buf`, and the guest gets `count`; to a file in memory it appends
/// them. To a host file they are handed on as they are. What is no descriptor is
/// `EBADF`.
pub proof fn law_write_sends_buffer(
    before: Streams,
    after: Streams,
    mem: Seq<u8>,
    fd: i32,
    buf: i32,
    count: i32,
    r: SysOutcome,
)
    requires
        write_call(before, after, mem, fd, buf, count, r),
        0 < count,
        buf as u32 + count <= mem.len(),
    ensures
        ({
            let data = mem.subrange(buf as u32 as int, buf as u32 + count);
            let stream = fd == 1 || fd == 2;
            let piped = before.pipes is Some && before.pipes->0.pipes.contains_key(fd);
            let open = fd >= 3 && before.fs.fd(fd) is Some;
            let hosted = before.fs.host_fds.contains(fd);
            &&& stream ==> {
                &&& r matches SysOutcome::Return(v) && v == count
                &&& after.out == before.out + data
                &&& after.fs == before.fs && after.pipes == before.pipes
            }
            &&& !stream && !piped && open && !hosted && before.fs.fd_file(fd) is Ok ==> {
                &&& r matches SysOutcome::Return(v) && v == count
                &&& after.fs.fd_file(fd) == Ok::<Seq<u8>, i32>(
                    before.fs.fd_file(fd)->Ok_0 + data,
                )
                &&& after.out == before.out && after.pipes == before.pipes
            }
            &&& !stream && !piped && open && hosted ==> {
                &&& after == before
                &&& r matches SysOutcome::Host(HostRequest::Write { fd: f, data: d })
                &&& f == fd
                &&& d@ == data
            }
            &&& !stream && !piped && !open ==> after == before && (r matches SysOutcome::Return(v)
                && v == -9)
            &&& !stream && before.pipes is Some && before.pipes->0.is_end(fd, PipeEnd::Write) ==> {
                &&& r matches SysOutcome::Return(v) && v == count
                &&& after.pipes is Some
                &&& after.pipes->0.waiting(fd) == before.pipes->0.waiting(fd) + data
            }
        }),
{
    assert(count as u32 == count);
    let data = mem.subrange(buf as u32 as int, buf as u32 + count);
    law_chunk_reaches_its_stream(before, fd, data);
}

/// `writev` to standard output or error with a list that is complete captures the
/// buffers, joined, and the guest gets their total length.
pub proof fn law_writev_sends_buffers(
    before: Streams,
    after: Streams,
    mem: Seq<u8>,
    fd: i32,
    iov: i32,
    iovcnt: i32,
    r: SysOutcome,
)
    requires
        writev_call(before, after, mem, fd, iov, iovcnt, r),
        0 <= iovcnt,
        iov as u32 + 8 * iovcnt <= mem.len(),
        fd == 1 || fd == 2,
        buffers(mem, iov as u32 as int, iovcnt as int).1,
        buffers(mem, iov as u32 as int, iovcnt as int).0.flatten().len() <= i32::MAX,
    ensures
        ({
            let data = buffers(mem, iov as u32 as int, iovcnt as int).0.flatten();
            &&& r matches SysOutcome::Return(v) && v == data.len()
            &&& after.out == before.out + data
            &&& after.fs == before.fs
            &&& after.pipes == before.pipes
        }),
{
    assert(iovcnt as u32 == iovcnt);
    law_chunks_join_in_output(before, fd, buffers(mem, addr(iov), iovcnt as int).0, 0);
}

/// `close` releases any descriptor above stderr that is open, host-backed or not: it is
/// neither open nor host-backed afterwards, and the others are as they were. What is
/// not open is `EBADF`.
pub proof fn law_close_releases_any(fs: FsView, fd: i32, other: i32)
    requires
        other != fd,
    ensures
        ({
            let (t, r) = closing(fs, fd);
            &&& fs.host_fds.contains(fd) || (fd >= 3 && fs.fd(fd) is Some) ==> {
                &&& r == 0
                &&& t.fd(fd) is None
                &&& !t.host_fds.contains(fd)
                &&& t.fd(other) == fs.fd(other)
                &&& t.host_fds.contains(other) == fs.host_fds.contains(other)
                &&& t.nodes == fs.nodes
            }
            &&& !fs.host_fds.contains(fd) && (fd < 3 || fs.fd(fd) is None) ==> r == -9 && t == fs
        }),
{
}

/// `lseek` on a file in memory moves it as seeking does, and the guest gets 0 where
/// that tells the new place; on a host file it is handed on as it is.
pub proof fn law_lseek_moves(
    before: FsView,
    after: FsView,
    fd: i32,
    offset: i64,
    whence: i32,
    r: SysOutcome,
)
    requires
        seek_call(before, after, fd, offset, whence, r),
    ensures
        before.host_fds.contains(fd) ==> {
            &&& after == before
            &&& r matches SysOutcome::Host(HostRequest::Seek { fd: f, offset: o, whence: w })
            &&& f == fd && o == offset && w == whence
        },
        !before.host_fds.contains(fd) ==> {
            let (t, to) = before.sought(fd, offset, whence);
            &&& after == t
            &&& r matches SysOutcome::Return(v)
            &&& v == if to >= 0 {
                0
            } else {
                to
            }
        },
{
}

/// A `struct stat` that the guest gave room for stands there whole, and a stat of a
/// missing path is `ENOENT`. One without room inside memory is `EINVAL`.
pub proof fn law_stat_reaches_guest(
    before: (FsView, Seq<u8>),
    after: (FsView, Seq<u8>),
    roots: Seq<Seq<char>>,
    abs: Seq<char>,
    ptr: i32,
    r: SysOutcome,
)
    requires
        stat_done(before, after, roots, abs, ptr, r),
        mount_of(abs, roots) is None,
    ensures
        after.0.nodes == before.0.nodes,
        after.0.fds == before.0.fds,
        after.1.len() == before.1.len(),
        !before.0.nodes.contains_key(abs) ==> (r matches SysOutcome::Return(v) && v == -2) && after
            == before,
        before.0.nodes.contains_key(abs) && ptr as u32 + 96 > before.1.len() ==> (
        r matches SysOutcome::Return(v) && v == -22) && after.1 == before.1,
        before.0.nodes.contains_key(abs) && ptr as u32 + 96 <= before.1.len() ==> {
            let at = ptr as u32 as int;
            &&& r == SysOutcome::Return(0)
            &&& after.1.subrange(at, at + 96) == before.0.stat_of(abs)
            &&& after.1.take(at) == before.1.take(at)
            &&& after.1.skip(at + 96) == before.1.skip(at + 96)
        },
{
    if before.0.nodes.contains_key(abs) && ptr as u32 + 96 <= before.1.len() {
        let at = ptr as u32 as int;
        let rec = before.0.stat_of(abs);
        lemma_stat_record_len(
            before.0.next_ino as nat,
            node_mode(before.0.nodes[abs]) as nat,
            node_size(before.0.nodes[abs]),
        );
        assert(after.1.subrange(at, at + 96) =~= rec);
        assert(after.1.take(at) =~= before.1.take(at));
        assert(after.1.skip(at + 96) =~= before.1.skip(at + 96));
    } else if !before.0.nodes.contains_key(abs) {
        assert(after == before);
    }
}

/// Directory records go to the guest whole, and it gets their length.
pub proof fn law_records_reach_guest(mem: Seq<u8>, ptr: i32, bytes: Seq<u8>)
    requires
        bytes.len() <= i32::MAX,
    ensures
        ({
            let (after, r) = records_put(mem, ptr, bytes);
            let at = ptr as u32 as int;
            &&& after.len() == mem.len()
            &&& bytes.len() == 0 ==> r == 0 && after == mem
            &&& bytes.len() > 0 && at + bytes.len() <= mem.len() ==> {
                &&& r == bytes.len()
                &&& after.subrange(at, at + bytes.len()) == bytes
            }
            &&& bytes.len() > 0 && at + bytes.len() > mem.len() ==> r == -22 && after == mem
            &&& forall|i: int|
                0 <= i < mem.len() && !(at <= i < at + bytes.len()) ==> #[trigger] after[i] == mem[i]
        }),
{
    let at = ptr as u32 as int;
    if bytes.len() > 0 && at + bytes.len() <= mem.len() {
        assert(records_put(mem, ptr, bytes).0.subrange(at, at + bytes.len()) =~= bytes);
    }
}

/// A positioned read of nothing gives 0. What is not open is `EBADF`, and a negative
/// offset, a buffer that leaves memory and a descriptor that stands beyond the signed
/// range are `EINVAL`. A host file is asked for the very bytes. None of these changes memory.
pub proof fn law_pread_refusals(
    fs: FsView,
    before: Seq<u8>,
    after: Seq<u8>,
    fd: i32,
    buf: i32,
    count: i32,
    offset: i64,
    r: SysOutcome,
)
    requires
        pread_call(fs, before, after, fd, buf, count, offset, r),
        0 <= count,
    ensures
        ({
            let open = fd >= 3 && fs.fd(fd) is Some;
            let hosted = fs.host_fds.contains(fd);
            &&& count == 0 ==> r == SysOutcome::Return(0) && after == before
            &&& count > 0 && !open ==> after == before && (r matches SysOutcome::Return(v) && v
                == -9)
            &&& count > 0 && open && hosted ==> {
                &&& after == before
                &&& r matches SysOutcome::Host(HostRequest::ReadAt { fd: f, len, offset: o })
                &&& f == fd && len == count && o == offset
            }
            &&& count > 0 && open && !hosted && (fs.fd(fd)->0.offset > i64::MAX || offset < 0
                || buf as u32 + count > before.len())
                ==> after == before && (r matches SysOutcome::Return(v) && v == -22)
            &&& count > 0 && open && !hosted && offset >= 0 && buf as u32 + count <= before.len()
                && fs.fd(fd)->0.offset <= i64::MAX ==> match fs.fd_file(fd) {
                Err(e) => after == before && r == SysOutcome::Return(e),
                Ok(_) => r matches SysOutcome::Return(v) && 0 <= v <= count,
            }
        }),
{
    if count > 0 {
        assert(count as u32 == count);
        let place = fs.fd(fd)->0.offset;
        assert((place as i64) < 0 <==> place > 0x7fff_ffff_ffff_ffff) by (bit_vector);
    }
}

/// A read from what is no file and no pipe is the errno of that: `EBADF` for what is not
/// open and for the write end of a pipe, `EISDIR` for a directory, `ENOENT` for a file
/// that is gone. A host file is asked for as many bytes as the guest asked for. None of
/// these changes anything.
pub proof fn law_read_refusals(
    before: (FsView, Option<ProcessView>, Seq<u8>),
    after: (FsView, Option<ProcessView>, Seq<u8>),
    fd: i32,
    buf: i32,
    count: i32,
    r: SysOutcome,
)
    requires
        read_call(before, after, fd, buf, count, r),
        0 < count,
        buf as u32 + count <= before.2.len(),
    ensures
        ({
            let same = after.0 == before.0 && after.1 == before.1 && after.2 == before.2;
            let piped = before.1 is Some && before.1->0.pipes.contains_key(fd);
            let hosted = before.0.host_fds.contains(fd);
            &&& piped && before.1->0.pipes[fd].end == PipeEnd::Write ==> same && (
            r matches SysOutcome::Return(v) && v == -9)
            &&& !piped && hosted ==> {
                &&& same
                &&& r matches SysOutcome::Host(HostRequest::Read { fd: f, len })
                &&& f == fd && len == count
            }
            &&& !piped && !hosted && before.0.fd(fd) is None ==> same && (
            r matches SysOutcome::Return(v) && v == -9)
            &&& !piped && !hosted && before.0.fd(fd) is Some ==> {
                let p = before.0.fd(fd)->0.path;
                &&& !before.0.nodes.contains_key(p) ==> same && (r matches SysOutcome::Return(v)
                    && v == -2)
                &&& before.0.nodes.contains_key(p) && before.0.nodes[p] is Dir ==> same && (
                r matches SysOutcome::Return(v) && v == -21)
            }
        }),
{
    assert(count as u32 == count);
}

/// A `write` of nothing gives 0, and one of a buffer that leaves memory `EINVAL`; neither
/// changes anything.
pub proof fn law_write_refusals(
    before: Streams,
    after: Streams,
    mem: Seq<u8>,
    fd: i32,
    buf: i32,
    count: i32,
    r: SysOutcome,
)
    requires
        write_call(before, after, mem, fd, buf, count, r),
        count == 0 || (count > 0 && buf as u32 + count > mem.len()),
    ensures
        after == before,
        r matches SysOutcome::Return(v) && v == if count == 0 {
            0int
        } else {
            -22int
        },
{
    if count > 0 {
        assert(count as u32 == count);
    }
}

/// A `writev` whose list leaves memory is `EINVAL` and writes nothing. One whose list is
/// not complete is `EINVAL` too, after what came before was written. To a host file the
/// buffers are handed on as they are.
pub proof fn law_writev_refusals(
    before: Streams,
    after: Streams,
    mem: Seq<u8>,
    fd: i32,
    iov: i32,
    iovcnt: i32,
    r: SysOutcome,
)
    requires
        writev_call(before, after, mem, fd, iov, iovcnt, r),
        0 <= iovcnt,
    ensures
        iov as u32 + 8 * iovcnt > mem.len() ==> after == before && (r matches SysOutcome::Return(v)
            && v == -22),
        iov as u32 + 8 * iovcnt <= mem.len() ==> {
            let list = buffers(mem, iov as u32 as int, iovcnt as int);
            let piped = before.pipes is Some && before.pipes->0.pipes.contains_key(fd);
            &&& (fd == 1 || fd == 2) && !list.1 && list.0.flatten().len() <= i32::MAX ==> {
                &&& r matches SysOutcome::Return(v) && v == -22
                &&& after.out == before.out + list.0.flatten()
            }
            &&& fd >= 3 && !piped && before.fs.fd(fd) is Some && before.fs.host_fds.contains(fd) ==> {
                &&& after == before
                &&& r matches SysOutcome::Host(HostRequest::WriteAll { fd: f, chunks, complete })
                &&& f == fd
                &&& chunk_views(chunks@) == list.0
                &&& complete == list.1
            }
        },
{
    assert(iovcnt as u32 == iovcnt);
    let list = buffers(mem, addr(iov), iovcnt as int);
    if (fd == 1 || fd == 2) && list.0.flatten().len() <= i32::MAX {
        law_chunks_join_in_output(before, fd, list.0, 0);
    }
}

/// A relative path from a descriptor that is not open is `EBADF` to each call that takes
/// one. Nothing changes, and nothing is noted.
pub proof fn law_paths_need_descriptor(
    before: (FsView, Seq<Seq<char>>, Seq<u8>),
    after: (FsView, Seq<Seq<char>>, Seq<u8>),
    roots: Seq<Seq<char>>,
    dirfd: i32,
    path: Seq<char>,
    flags: i32,
    ptr: i32,
    r: SysOutcome,
)
    requires
        path.len() == 0 || path[0] != '/',
        dirfd != -100,
        before.0.fd(dirfd) is None,
    ensures
        openat_done((before.0, before.1), (after.0, after.1), roots, dirfd, path, flags, r) ==> {
            &&& r matches SysOutcome::Return(v) && v == -9
            &&& after.0 == before.0 && after.1 == before.1
        },
        fstatat_done((before.0, before.2), (after.0, after.2), roots, dirfd, path, ptr, r) ==> {
            &&& r matches SysOutcome::Return(v) && v == -9
            &&& after.0 == before.0 && after.2 == before.2
        },
        mkdirat_done(before.0, after.0, roots, dirfd, path, r) ==> {
            &&& r matches SysOutcome::Return(v) && v == -9
            &&& after.0 == before.0
        },
        faccessat_done(before.0, roots, dirfd, path, r) ==> {
            r matches SysOutcome::Return(v) && v == -9
        },
{
    law_paths_start_at_descriptor(before.0, dirfd, path);
}

/// A stat of a path that a mount point holds asks the host about that path, and changes
/// neither files nor memory.
pub proof fn law_mounted_stat_asks(
    before: (FsView, Seq<u8>),
    after: (FsView, Seq<u8>),
    roots: Seq<Seq<char>>,
    abs: Seq<char>,
    j: int,
    ptr: i32,
    r: SysOutcome,
)
    requires
        stat_done(before, after, roots, abs, ptr, r),
        0 <= j < roots.len(),
        goes_on_behind(abs, trim_slashes(roots[j])),
    ensures
        after == before,
        r matches SysOutcome::Host(HostRequest::Stat { path }) && path.root <= j,
{
    law_first_mount_holds(abs, roots, 0);
}

/// A write to a host file that succeeds answers the bytes that it was given, and each
/// chunk of a `writev` adds its own to the total. One that fails answers the errno of the
/// host, whatever was written before.
pub proof fn law_host_write_tells(
    total: i32,
    n: usize,
    len: usize,
    kind: HostErrorKind,
)
    ensures
        n <= i32::MAX && len <= i32::MAX ==> host_write_told(Ok(n), len) == len,
        n <= i32::MAX && 0 <= total && total + len <= i32::MAX ==> (host_chunk_told(
            total,
            Ok(n),
            len,
        ) matches Ok(t) && t == total + len),
        host_write_told(Err(kind), len) == errno_of(kind),
        host_chunk_told(total, Err(kind), len) == Err::<i32, i32>(errno_of(kind)),
        kind is NotFound ==> host_write_told(Err(kind), len) == -2,
{
}

/// An `lseek` on a host file answers 0 wherever the file went, inside the signed range,
/// and the errno of the host where it did not go.
pub proof fn law_host_seek_tells(at: u64, kind: HostErrorKind)
    ensures
        at <= i64::MAX ==> host_seek_told(Ok(at)) == 0,
        host_seek_told(Err(kind)) == errno_of(kind),
{
}

/// A `pread64` from a host file moves it to the offset, which counts as 0 where it is
/// negative, and then reads, if the buffer lies inside memory. A buffer that does not is
/// `EINVAL`, after the file was moved back. A file that cannot tell where it stands, or
/// cannot be moved, answers the errno of the host, and nothing is to be moved back.
pub proof fn law_host_pread_goes_to_offset(
    mem: Seq<u8>,
    buf: i32,
    len: usize,
    at: u64,
    offset: i64,
    kind: HostErrorKind,
)
    ensures
        at <= i64::MAX && offset >= 0 ==> (host_pread_planned(Ok(at), offset) matches Ok(
            HostSeek::Start(to),
        ) && to == offset),
        at <= i64::MAX && offset < 0 ==> (host_pread_planned(Ok(at), offset) matches Ok(
            HostSeek::Start(to),
        ) && to == 0),
        host_pread_planned(Err(kind), offset) == Err::<HostSeek, i32>(errno_of(kind)),
        at <= i64::MAX && buf as u32 + len <= mem.len() ==> host_pread_step(
            mem,
            buf,
            len as int,
            Ok(at),
        ) is Read,
        at <= i64::MAX && buf as u32 + len > mem.len() ==> (host_pread_step(
            mem,
            buf,
            len as int,
            Ok(at),
        ) matches PreadStep::Back(v) && v == -22),
        host_pread_step(mem, buf, len as int, Err(kind)) == PreadStep::Return(errno_of(kind)),
{
}

/// `getdents64` of a directory that a mount point holds asks the host for the listing of
/// that path, and one of what cannot be listed is an errno: `EBADF` for what is not open,
/// `ENOTDIR` for a file. None of these changes anything.
pub proof fn law_getdents_asks_or_refuses(
    before: (FsView, Seq<u8>),
    after: (FsView, Seq<u8>),
    roots: Seq<Seq<char>>,
    fd: i32,
    dirp: i32,
    count: i32,
    j: int,
    r: SysOutcome,
)
    requires
        getdents_call(before, after, roots, fd, dirp, count, r),
    ensures
        before.0.fd(fd) is None ==> after == before && (r matches SysOutcome::Return(v) && v == -9),
        before.0.fd(fd) is Some ==> {
            let p = before.0.fd(fd)->0.path;
            &&& 0 <= j < roots.len() && goes_on_behind(p, trim_slashes(roots[j])) ==> {
                &&& after == before
                &&& r matches SysOutcome::Host(HostRequest::ListDir { path }) && path.root <= j
            }
            &&& (forall|k: int|
                0 <= k < roots.len() ==> !goes_on_behind(p, trim_slashes(#[trigger] roots[k])))
                && before.0.nodes.contains_key(p) && before.0.nodes[p] is File ==> {
                &&& after == before
                &&& r matches SysOutcome::Return(v) && v == -20
            }
        },
{
    if before.0.fd(fd) is Some {
        law_first_mount_holds(before.0.fd(fd)->0.path, roots, 0);
    }
}

} // verus!
