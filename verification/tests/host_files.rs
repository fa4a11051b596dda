//! Host-backed descriptors and positioned access.

use afterburner_wasi::emscripten_fs::{
    plan_host_open, plan_host_seek, HostErrorKind, HostMeta, HostOpenPlan, HostOpened, HostSeek,
    InMemFs, EACCES, EBADF, EINVAL, EIO, EISDIR, ENOENT, MODE_DIR, MODE_FILE, O_CREAT, O_RDWR,
    O_TRUNC, O_WRONLY,
};
use afterburner_wasi::emscripten_syscall::{
    finish_host_lstat, finish_host_read, finish_writev, host_pread_moved, plan_host_pread, PreadStep,
};

fn word(buf: &[u8], at: usize) -> u32 {
    u32::from_le_bytes([buf[at], buf[at + 1], buf[at + 2], buf[at + 3]])
}

#[test]
fn a_positioned_write_fills_the_gap_and_stays_put() {
    let mut fs = InMemFs::new();
    fs.insert_file("/f", b"abc".to_vec());
    let fd = fs.open("/f".to_owned(), O_RDWR);
    assert_eq!(fs.pwrite(fd, b"xy", 5), 2);
    assert_eq!(fs.read_file("/f"), Some(&b"abc\0\0xy"[..]));
    assert_eq!(fs.pwrite(fd, b"Z", 1), 1);
    assert_eq!(fs.read_file("/f"), Some(&b"aZc\0\0xy"[..]));
    assert_eq!(fs.offset_of(fd), Some(0));
    assert_eq!(fs.pwrite(77, b"Z", 0), EBADF);
    let dir = fs.open("/".to_owned(), 0);
    assert_eq!(fs.pwrite(dir, b"Z", 0), EISDIR);
}

#[test]
fn an_unlinked_file_is_gone() {
    let mut fs = InMemFs::new();
    fs.insert_file("/d/f", b"x".to_vec());
    let fd = fs.open("/d/f".to_owned(), 0);
    assert_eq!(fs.unlink("/d/f"), 0);
    assert_eq!(fs.unlink("/d/f"), ENOENT);
    assert!(!fs.has_path("/d/f"));
    assert!(fs.has_path("/d"));
    assert_eq!(fs.read(fd, &mut [0u8; 4]), ENOENT);
}

#[test]
fn a_host_path_is_opened_as_the_flags_ask() {
    assert_eq!(plan_host_open(true, O_WRONLY), HostOpenPlan::Refuse(EISDIR));
    assert_eq!(plan_host_open(true, O_CREAT), HostOpenPlan::Directory);
    assert_eq!(
        plan_host_open(false, 0),
        HostOpenPlan::File { read: true, write: false, create: false, truncate: false }
    );
    assert_eq!(
        plan_host_open(false, O_WRONLY | O_CREAT | O_TRUNC),
        HostOpenPlan::File { read: false, write: true, create: true, truncate: true }
    );
    assert_eq!(
        plan_host_open(false, O_RDWR),
        HostOpenPlan::File { read: true, write: true, create: false, truncate: false }
    );
}

#[test]
fn a_host_seek_goes_where_whence_says() {
    assert_eq!(plan_host_seek(7, 0), Ok(HostSeek::Start(7)));
    assert_eq!(plan_host_seek(-7, 0), Ok(HostSeek::Start(0)));
    assert_eq!(plan_host_seek(-7, 1), Ok(HostSeek::Current(-7)));
    assert_eq!(plan_host_seek(7, 2), Ok(HostSeek::End(7)));
    assert_eq!(plan_host_seek(7, 3), Err(EINVAL));
}

#[test]
fn an_opened_host_file_takes_a_descriptor() {
    let mut fs = InMemFs::new();
    assert_eq!(fs.open_host("/data/x".to_owned(), HostOpened::Refused(EISDIR)), EISDIR);
    let denied = HostOpened::Failed(HostErrorKind::PermissionDenied);
    assert_eq!(fs.open_host("/data/x".to_owned(), denied), EACCES);
    let dir = fs.open_host("/data".to_owned(), HostOpened::Directory);
    assert_eq!(dir, 3);
    assert!(!fs.is_host_fd(dir));
    let fd = fs.open_host("/data/x".to_owned(), HostOpened::File);
    assert_eq!(fd, 4);
    assert!(fs.is_host_fd(fd));
    assert_eq!(fs.fd_path(fd), Some("/data/x"));
    assert_eq!(fs.close_host(dir), None);
    assert_eq!(fs.close_host(fd), Some(0));
    assert!(!fs.is_fs_fd(fd));
}

#[test]
fn a_sweep_of_closes_spares_host_files_but_not_journals() {
    let mut fs = InMemFs::new();
    let db = fs.open_host("/data/a.db".to_owned(), HostOpened::File);
    let journal = fs.open_host("/data/a.db-journal".to_owned(), HostOpened::File);
    assert_eq!(fs.wasi_close(db), 0);
    assert!(fs.is_host_fd(db));
    assert_eq!(fs.wasi_close(journal), 0);
    assert!(!fs.is_fs_fd(journal));
    assert_eq!(fs.close(db), 0);
    assert!(!fs.is_host_fd(db));
}

#[test]
fn the_host_describes_its_files() {
    let mut fs = InMemFs::new();
    let fd = fs.open_host("/data/x".to_owned(), HostOpened::File);
    let mut buf = [0u8; 96];
    let meta = HostMeta { ino: 4711, is_dir: false, len: 12 };
    assert_eq!(fs.fstat_host(fd, Ok(meta), &mut buf), Some(0));
    assert_eq!(word(&buf, 4), MODE_FILE);
    assert_eq!(word(&buf, 24), 12);
    assert_eq!(word(&buf, 88), 4711);
    assert_eq!(fs.fstat_host(fd, Err(HostErrorKind::Other), &mut buf), Some(EIO));
    assert_eq!(fs.fstat_host(99, Ok(meta), &mut buf), None);
    let dir = HostMeta { ino: 5, is_dir: true, len: 4096 };
    assert_eq!(fs.stat_host_path(Ok(dir), &mut buf), 0);
    assert_eq!(word(&buf, 4), MODE_DIR);
    assert_eq!(word(&buf, 24), 0);
    assert_eq!(fs.stat_host_path(Err(HostErrorKind::NotFound), &mut buf), ENOENT);
}

/// A path that does not exist yet reads as an empty file if its directory does.
#[test]
fn a_new_path_in_a_directory_reads_as_an_empty_file() {
    let mut fs = InMemFs::new();
    let mut buf = [0xffu8; 96];
    assert_eq!(fs.stat_host_path_for_lstat(Err(HostErrorKind::NotFound), true, &mut buf), 0);
    assert_eq!(word(&buf, 4), 0o100644);
    assert_eq!(word(&buf, 24), 0);
    assert_eq!(fs.stat_host_path_for_lstat(Err(HostErrorKind::NotFound), false, &mut buf), ENOENT);
    let meta = HostMeta { ino: 9, is_dir: false, len: 3 };
    assert_eq!(fs.stat_host_path_for_lstat(Ok(meta), false, &mut buf), 0);
    assert_eq!(word(&buf, 24), 3);
}

#[test]
fn a_positioned_host_read_needs_the_file_to_move() {
    let mut mem = vec![0u8; 16];
    assert_eq!(plan_host_pread(Ok(5), 7), Ok(HostSeek::Start(7)));
    assert_eq!(plan_host_pread(Ok(5), -7), Ok(HostSeek::Start(0)));
    assert_eq!(plan_host_pread(Err(HostErrorKind::Other), 7), Err(EIO));
    assert_eq!(host_pread_moved(&mem, 4, 8, Ok(7)), PreadStep::Read);
    assert_eq!(host_pread_moved(&mem, 12, 8, Ok(7)), PreadStep::Back(EINVAL));
    assert_eq!(
        host_pread_moved(&mem, 12, 8, Err(HostErrorKind::Other)),
        PreadStep::Return(EIO)
    );
    assert_eq!(finish_host_read(&mut mem, 4, 8, Ok(b"hey".to_vec())), 3);
    assert_eq!(&mem[4..7], b"hey");
    assert_eq!(finish_host_read(&mut mem, 4, 8, Err(HostErrorKind::Other)), EIO);
}

#[test]
fn a_list_that_leaves_memory_fails_after_its_chunks() {
    assert_eq!(finish_writev(7, true), 7);
    assert_eq!(finish_writev(7, false), EINVAL);
}

#[test]
fn an_lstat_of_a_new_path_succeeds_in_a_directory() {
    let mut fs = InMemFs::new();
    let mut mem = vec![0u8; 128];
    let missing = Err(HostErrorKind::NotFound);
    assert_eq!(finish_host_lstat(&mut fs, &mut mem, 16, missing, false), ENOENT);
    assert_eq!(finish_host_lstat(&mut fs, &mut mem, 16, missing, true), 0);
    assert_eq!(word(&mem, 20), 0o100644);
    assert_eq!(finish_host_lstat(&mut fs, &mut mem, 64, missing, true), EINVAL);
    let meta = Ok(HostMeta { ino: 9, is_dir: false, len: 3 });
    assert_eq!(finish_host_lstat(&mut fs, &mut mem, 16, meta, true), 0);
    assert_eq!(word(&mem, 40), 3);
}
