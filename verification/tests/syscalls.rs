//! The `__syscall_*` functions, on plain guest memory.

use afterburner_wasi::emscripten_fs::{HostErrorKind, HostMeta, InMemFs};
use afterburner_wasi::emscripten_multiprocessing::ProcessState;
use afterburner_wasi::emscripten_runtime::{MechCallLog, Val};
use afterburner_wasi::emscripten_syscall::{
    finish_faccessat, finish_getdents64, finish_host_read, finish_host_seek, finish_host_stat,
    finish_host_unit, finish_host_write, syscall_close, syscall_faccessat, syscall_fcntl64,
    syscall_fstat64, syscall_getcwd, syscall_getdents64, syscall_ioctl, syscall_lseek,
    syscall_lstat64, syscall_mkdirat, syscall_newfstatat, syscall_openat, syscall_pread64,
    syscall_read, syscall_readlinkat, syscall_stat64, syscall_unsupported, syscall_write,
    syscall_writev, unsupported_syscalls, writev_host_step, HostRequest, SysOutcome, AT_FDCWD,
};
use afterburner_wasi::ring::PathLog;

struct Guest {
    fs: InMemFs,
    procs: Option<ProcessState>,
    out: Vec<u8>,
    log: PathLog,
    preopens: Vec<(String, String)>,
    mem: Vec<u8>,
}

fn guest() -> Guest {
    Guest {
        fs: InMemFs::new(),
        procs: None,
        out: Vec::new(),
        log: PathLog::new(),
        preopens: Vec::new(),
        mem: vec![0u8; 0x20000],
    }
}

fn mounted_guest() -> Guest {
    let mut g = guest();
    g.preopens.push(("/srv/files".to_owned(), "/data".to_owned()));
    g
}

fn put(g: &mut Guest, at: usize, bytes: &[u8]) {
    g.mem[at..at + bytes.len()].copy_from_slice(bytes);
}

fn returned(o: SysOutcome) -> i32 {
    match o {
        SysOutcome::Return(v) => v,
        SysOutcome::Host(_) => panic!("unexpected host request"),
    }
}

fn requested(o: SysOutcome) -> HostRequest {
    match o {
        SysOutcome::Host(h) => h,
        SysOutcome::Return(v) => panic!("unexpected result {v}"),
    }
}

fn write(g: &mut Guest, fd: i32, buf: i32, count: i32) -> SysOutcome {
    syscall_write(&mut g.fs, &mut g.procs, &mut g.out, &g.mem, fd, buf, count)
}

fn read(g: &mut Guest, fd: i32, buf: i32, count: i32) -> SysOutcome {
    syscall_read(&mut g.fs, &mut g.procs, &mut g.mem, fd, buf, count)
}

fn open(g: &mut Guest, dirfd: i32, path: i32, flags: i32) -> SysOutcome {
    syscall_openat(&mut g.fs, &mut g.log, &g.preopens, &g.mem, dirfd, path, flags)
}

fn dents(g: &mut Guest, fd: i32, dirp: i32, count: i32) -> SysOutcome {
    syscall_getdents64(&mut g.fs, &g.preopens, &mut g.mem, fd, dirp, count)
}

// ---- __syscall_write --------------------------------------------------------

/// fd 1 (stdout): bytes go to the captured output.
#[test]
fn syscall_write_fd1_appends_to_wasi_stdout() {
    let mut g = guest();
    put(&mut g, 0x100, b"hi");
    let rc = returned(write(&mut g, 1, 0x100, 2));
    assert_eq!(rc, 2, "write should return byte count");
    assert_eq!(g.out, b"hi");
}

/// fd 2 (stderr) also goes to the captured output.
#[test]
fn syscall_write_fd2_appends_to_wasi_stdout() {
    let mut g = guest();
    put(&mut g, 0x200, b"err");
    let rc = returned(write(&mut g, 2, 0x200, 3));
    assert_eq!(rc, 3);
    assert_eq!(g.out, b"err");
}

/// File fd: bytes written to the file's node.
#[test]
fn syscall_write_file_fd_appends_to_fs() {
    let mut g = guest();
    g.fs.insert_file("/tmp/out.txt", Vec::new());
    let fd: i32 = g.fs.open("/tmp/out.txt".to_owned(), 1);
    assert!(fd >= 3, "expected valid fd, got {fd}");
    put(&mut g, 0x300, b"world");
    let rc = returned(write(&mut g, fd, 0x300, 5));
    assert_eq!(rc, 5, "write to file fd should return 5");
    assert_eq!(g.fs.read_file("/tmp/out.txt"), Some(b"world".as_slice()));
}

/// Invalid fd returns EBADF (-9).
#[test]
fn syscall_write_bad_fd_returns_ebadf() {
    let mut g = guest();
    put(&mut g, 0x400, b"x");
    let rc = returned(write(&mut g, 42, 0x400, 1));
    assert_eq!(rc, -9, "bad fd must return EBADF=-9");
}

// ---- __syscall_writev -------------------------------------------------------

/// writev over fd 1 concatenates two iovecs.
#[test]
fn syscall_writev_fd1_concatenates_iovecs() {
    let mut g = guest();
    put(&mut g, 0x1000, b"foo");
    put(&mut g, 0x1010, b"bar");
    put(&mut g, 0x1020, &(0x1000u32).to_le_bytes());
    put(&mut g, 0x1024, &(3u32).to_le_bytes());
    put(&mut g, 0x1028, &(0x1010u32).to_le_bytes());
    put(&mut g, 0x102c, &(3u32).to_le_bytes());
    let rc = returned(syscall_writev(
        &mut g.fs,
        &mut g.procs,
        &mut g.out,
        &g.mem,
        1,
        0x1020,
        2,
    ));
    assert_eq!(rc, 6, "writev should return total byte count");
    assert_eq!(g.out, b"foobar");
}

// ---- __syscall_openat -------------------------------------------------------

/// O_CREAT creates a new file and returns a valid fd.
#[test]
fn syscall_openat_o_creat_returns_valid_fd() {
    let mut g = guest();
    put(&mut g, 0x500, b"/newfile.txt\0");
    let fd = returned(open(&mut g, -100, 0x500, 65));
    assert!(fd >= 3, "openat O_CREAT must return fd >= 3, got {fd}");
    assert!(g.fs.has_path("/newfile.txt"));
}

/// Opening a non-existent file without O_CREAT returns ENOENT (-2).
#[test]
fn syscall_openat_missing_file_returns_enoent() {
    let mut g = guest();
    put(&mut g, 0x600, b"/nonexistent.txt\0");
    let rc = returned(open(&mut g, -100, 0x600, 0));
    assert_eq!(rc, -2, "missing file without O_CREAT must return ENOENT=-2");
}

// ---- __syscall_fstat64 ------------------------------------------------------

/// fstat64 on a valid file fd fills the stat buffer: st_size at offset 24.
#[test]
fn syscall_fstat64_fills_stat_buf_st_size() {
    let mut g = guest();
    g.fs.insert_file("/fstat_test.txt", b"hello world".to_vec());
    let fd: i32 = g.fs.open("/fstat_test.txt".to_owned(), 0);
    assert!(fd >= 3);
    let rc = returned(syscall_fstat64(&mut g.fs, &g.preopens, &mut g.mem, fd, 0x700));
    assert_eq!(rc, 0, "fstat64 must return 0 on success");
    let buf = &g.mem[0x700..0x700 + 112];
    let st_size = i64::from_le_bytes(buf[24..32].try_into().unwrap());
    assert_eq!(st_size, 11, "st_size must be 11 (len of 'hello world')");
    let st_mode = i32::from_le_bytes(buf[4..8].try_into().unwrap());
    assert!(
        st_mode & 0o100_000 != 0,
        "st_mode must have S_IFREG bit set, got 0o{st_mode:o}"
    );
}

/// fstat64 on an invalid fd returns EBADF.
#[test]
fn syscall_fstat64_bad_fd_returns_ebadf() {
    let mut g = guest();
    let rc = returned(syscall_fstat64(&mut g.fs, &g.preopens, &mut g.mem, 42, 0x800));
    assert_eq!(rc, -9, "fstat64 on bad fd must return EBADF=-9");
}

// ---- __syscall_stat64 -------------------------------------------------------

/// stat64 on an existing path fills st_mode with S_IFREG.
#[test]
fn syscall_stat64_regular_file_has_s_ifreg() {
    let mut g = guest();
    g.fs.insert_file("/stat_me.txt", b"abc".to_vec());
    put(&mut g, 0x900, b"/stat_me.txt\0");
    let rc = returned(syscall_stat64(
        &mut g.fs,
        &mut g.log,
        &g.preopens,
        &mut g.mem,
        0x900,
        0xa00,
    ));
    assert_eq!(rc, 0, "stat64 must return 0 for existing file");
    let buf = &g.mem[0xa00..0xa00 + 112];
    let st_mode = i32::from_le_bytes(buf[4..8].try_into().unwrap());
    assert!(st_mode & 0o100_000 != 0, "S_IFREG bit must be set");
    let st_size = i64::from_le_bytes(buf[24..32].try_into().unwrap());
    assert_eq!(st_size, 3, "st_size must be 3");
}

/// stat64 on a missing path returns ENOENT.
#[test]
fn syscall_stat64_missing_path_returns_enoent() {
    let mut g = guest();
    put(&mut g, 0xb00, b"/no_such_file.txt\0");
    let rc = returned(syscall_stat64(
        &mut g.fs,
        &mut g.log,
        &g.preopens,
        &mut g.mem,
        0xb00,
        0xc00,
    ));
    assert_eq!(rc, -2, "stat64 on missing path must return ENOENT=-2");
}

// ---- __syscall_getdents64 ---------------------------------------------------

/// getdents64 on a directory with children: first call returns > 0 bytes, then
/// the end is reached and kept.
#[test]
fn syscall_getdents64_records_and_eof() {
    let mut g = guest();
    g.fs.insert_file("/dir/a.py", b"".to_vec());
    g.fs.insert_file("/dir/b.py", b"".to_vec());
    let fd: i32 = g.fs.open("/dir".to_owned(), 0);
    assert!(fd >= 3, "expected valid fd");
    let n1 = returned(dents(&mut g, fd, 0xd00, 4096));
    assert!(n1 > 0, "first getdents64 call must return > 0, got {n1}");
    let mut remaining = true;
    let mut iterations = 0u32;
    while remaining {
        let n = returned(dents(&mut g, fd, 0xd00, 4096));
        assert!(n >= 0, "getdents64 must not return negative, got {n}");
        if n == 0 {
            remaining = false;
        }
        iterations += 1;
        assert!(iterations < 100, "getdents64 never reached EOF");
    }
    let n_extra = returned(dents(&mut g, fd, 0xd00, 4096));
    assert_eq!(n_extra, 0, "cursor must stay at EOF after exhaustion");
}

/// getdents64 on a bad fd returns a negative error.
#[test]
fn syscall_getdents64_bad_fd_returns_error() {
    let mut g = guest();
    let rc = returned(dents(&mut g, 99, 0x1000, 4096));
    assert!(rc < 0, "bad fd must return negative errno, got {rc}");
}

// ---- __syscall_getcwd -------------------------------------------------------

/// getcwd writes "/" into guest memory and returns 2.
#[test]
fn syscall_getcwd_writes_root() {
    let mut g = guest();
    let rc: i32 = syscall_getcwd(&mut g.mem, 0x2000, 64);
    assert_eq!(rc, 2, "getcwd must return 2 (bytes written including NUL)");
    assert_eq!(&g.mem[0x2000..0x2002], b"/\0");
}

// ---- reads, seeks, closes ---------------------------------------------------

#[test]
fn read_gives_back_what_write_wrote() {
    let mut g = guest();
    put(&mut g, 0x100, b"/rw.txt\0");
    let fd = returned(open(&mut g, AT_FDCWD, 0x100, 66));
    put(&mut g, 0x200, b"payload");
    assert_eq!(returned(write(&mut g, fd, 0x200, 7)), 7);
    assert_eq!(returned(syscall_lseek(&mut g.fs, fd, 0, 0)), 0);
    assert_eq!(returned(read(&mut g, fd, 0x300, 7)), 7);
    assert_eq!(&g.mem[0x300..0x307], b"payload");
    assert_eq!(returned(read(&mut g, fd, 0x300, 7)), 0);
    let n = returned(syscall_pread64(&mut g.fs, &mut g.mem, fd, 0x400, 3, 3));
    assert_eq!(n, 3);
    assert_eq!(&g.mem[0x400..0x403], b"loa");
    assert_eq!(syscall_close(&mut g.fs, fd), 0);
    assert_eq!(syscall_close(&mut g.fs, fd), -9);
    assert_eq!(returned(read(&mut g, fd, 0x300, 7)), -9);
}

#[test]
fn the_standard_streams_are_no_files() {
    let mut g = guest();
    assert_eq!(returned(read(&mut g, 0, 0x100, 8)), -9);
    assert_eq!(syscall_close(&mut g.fs, 1), -9);
}

#[test]
fn a_path_relative_to_an_open_directory() {
    let mut g = guest();
    g.fs.insert_file("/d/f.txt", b"abc".to_vec());
    let dir: i32 = g.fs.open("/d".to_owned(), 0);
    put(&mut g, 0x100, b"f.txt\0");
    let fd = returned(open(&mut g, dir, 0x100, 0));
    assert!(fd > dir);
    let rc = returned(syscall_newfstatat(
        &mut g.fs,
        &g.preopens,
        &mut g.mem,
        dir,
        0x100,
        0x200,
    ));
    assert_eq!(rc, 0);
    assert_eq!(g.mem[0x200 + 24], 3);
    let rc = returned(syscall_faccessat(&g.fs, &g.preopens, &g.mem, dir, 0x100));
    assert_eq!(rc, 0);
    put(&mut g, 0x100, b"gone\0");
    let rc = returned(syscall_faccessat(&g.fs, &g.preopens, &g.mem, dir, 0x100));
    assert_eq!(rc, -2);
}

#[test]
fn mkdirat_makes_a_directory_once() {
    let mut g = guest();
    put(&mut g, 0x100, b"/made/here\0");
    let first = returned(syscall_mkdirat(&mut g.fs, &g.preopens, &g.mem, AT_FDCWD, 0x100));
    assert_eq!(first, 0);
    let (mode, size) = g.fs.stat_mode_size("/made/here").unwrap();
    assert_eq!((mode & 0o170000, size), (0o040000, 0));
}

#[test]
fn fixed_answers() {
    assert_eq!(syscall_ioctl(), -59);
    assert_eq!(syscall_fcntl64(), 0);
    assert_eq!(syscall_readlinkat(), -22);
    let mut log = MechCallLog::new();
    let args = vec![Val::I32(-100), Val::I64(7), Val::I32(3)];
    assert_eq!(syscall_unsupported(&mut log, "__syscall_renameat", &args), -1);
    assert_eq!(syscall_unsupported(&mut log, "__syscall_dup", &vec![Val::I32(4)]), -1);
    let noted: Vec<_> = log.tail(2).iter().map(|e| (e.name, e.arg0, e.arg1)).collect();
    assert_eq!(noted, [("__syscall_renameat", -100, 0), ("__syscall_dup", 4, 0)]);
    let sigs = unsupported_syscalls();
    assert!(sigs.iter().any(|s| s.name == "__syscall_renameat"));
    let select = sigs.iter().find(|s| s.name == "__syscall__newselect").unwrap();
    assert_eq!((select.params.len(), select.results.len()), (5, 1));
}

// ---- pipes ------------------------------------------------------------------

#[test]
fn a_pipe_carries_bytes_between_its_ends() {
    let mut g = guest();
    let mut state = ProcessState::new();
    let (r, w) = state.alloc_pipe();
    g.procs = Some(state);
    put(&mut g, 0x100, b"through");
    assert_eq!(returned(write(&mut g, w, 0x100, 7)), 7);
    assert_eq!(returned(read(&mut g, r, 0x200, 16)), 7);
    assert_eq!(&g.mem[0x200..0x207], b"through");
}

// ---- paths under a host mount -----------------------------------------------

#[test]
fn a_mounted_path_goes_to_the_host() {
    let mut g = mounted_guest();
    put(&mut g, 0x100, b"/data/in/x.db\0");
    match requested(open(&mut g, AT_FDCWD, 0x100, 2)) {
        HostRequest::Open { guest, path, flags } => {
            assert_eq!(guest, "/data/in/x.db");
            assert_eq!(path.root, 0);
            assert_eq!(path.child.as_deref(), Some("in/x.db"));
            assert_eq!(flags, 2);
        }
        _ => panic!("expected an open request"),
    }
    put(&mut g, 0x100, b"/dataextra\0");
    assert_eq!(returned(open(&mut g, AT_FDCWD, 0x100, 0)), -2);
}

#[test]
fn a_mounted_stat_goes_to_the_host() {
    let mut g = mounted_guest();
    put(&mut g, 0x100, b"/data\0");
    let o = syscall_lstat64(&mut g.fs, &g.preopens, &mut g.mem, 0x100, 0x200);
    match requested(o) {
        HostRequest::Stat { path, .. } => assert!(path.child.is_none()),
        _ => panic!("expected a stat request"),
    }
    let meta = HostMeta { ino: 7, is_dir: true, len: 4096 };
    assert_eq!(finish_host_stat(&mut g.mem, 0x200, Ok(meta)), 0);
    let mode = i32::from_le_bytes(g.mem[0x204..0x208].try_into().unwrap());
    assert!(mode & 0o040_000 != 0);
    let rc: i32 = finish_host_stat(&mut g.mem, 0x200, Err(HostErrorKind::NotFound));
    assert_eq!(rc, -2);
}

#[test]
fn host_results_become_errnos() {
    let mut g = guest();
    assert_eq!(finish_host_unit(Ok(())), 0);
    assert_eq!(finish_host_unit(Err(HostErrorKind::AlreadyExists)), -17);
    assert_eq!(finish_host_unit(Err(HostErrorKind::PermissionDenied)), -13);
    assert_eq!(finish_host_unit(Err(HostErrorKind::IsADirectory)), -21);
    assert_eq!(finish_host_unit(Err(HostErrorKind::NotADirectory)), -20);
    assert_eq!(finish_host_unit(Err(HostErrorKind::InvalidInput)), -22);
    assert_eq!(finish_host_unit(Err(HostErrorKind::Other)), -5);
    assert_eq!(finish_faccessat(true), 0);
    assert_eq!(finish_faccessat(false), -2);
    assert_eq!(finish_host_read(&mut g.mem, 0x100, 8, Ok(b"four".to_vec())), 4);
    assert_eq!(&g.mem[0x100..0x104], b"four");
    assert_eq!(finish_host_write(Ok(5), 5), 5);
    assert_eq!(finish_host_seek(Ok(9)), 0);
    assert_eq!(finish_host_seek(Err(HostErrorKind::InvalidInput)), -22);
    assert_eq!(writev_host_step(3, Ok(2), 2), Ok(5));
}

#[test]
fn a_host_directory_is_listed_with_dots() {
    let mut g = guest();
    g.fs.mkdir_p("/h");
    let fd: i32 = g.fs.open("/h".to_owned(), 0);
    let names = vec![("b".to_owned(), false), ("a".to_owned(), true)];
    let n: i32 = finish_getdents64(&mut g.fs, &mut g.mem, fd, 0x100, 4096, Some(names));
    assert_eq!(n, 4 * 24);
    assert_eq!(&g.mem[0x100 + 19..0x100 + 21], b".\0");
    assert_eq!(&g.mem[0x100 + 24 + 19..0x100 + 24 + 22], b"..\0");
    assert_eq!(g.fs.fd_dir_cursor(fd), 4);
}
