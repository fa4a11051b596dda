//! The `wasi_snapshot_preview1` functions, on plain guest memory.

use afterburner_wasi::emscripten_abi::VIRTUAL_EPOCH_NS;
use afterburner_wasi::emscripten_fs::InMemFs;
use afterburner_wasi::emscripten_wasi::{
    args_sizes_get, clock_res_get, clock_time_get, environ_get, environ_sizes_get, exit_message,
    fd_close, fd_fdstat_get, fd_pread, fd_prestat_dir_name, fd_prestat_get, fd_pwrite, fd_read,
    fd_seek, fd_write, path_filestat_get, path_open, poll_oneoff, random_get,
};

const EXPECTED_ENVIRON: &[&[u8]] = &[b"PYTHONUNBUFFERED=1\0", b"HOME=/home/burn\0"];

fn memory() -> Vec<u8> {
    vec![0u8; 0x40000]
}

fn put(mem: &mut [u8], at: usize, bytes: &[u8]) {
    mem[at..at + bytes.len()].copy_from_slice(bytes);
}

fn word(mem: &[u8], at: usize) -> u32 {
    u32::from_le_bytes(mem[at..at + 4].try_into().unwrap())
}

fn long(mem: &[u8], at: usize) -> u64 {
    u64::from_le_bytes(mem[at..at + 8].try_into().unwrap())
}

// ---- environ ----------------------------------------------------------------

/// environ_sizes_get writes the var count and total byte size of the fixed guest
/// environment.
#[test]
fn environ_sizes_get_returns_fixed_environ() {
    let mut mem = memory();
    let rc: i32 = environ_sizes_get(&mut mem, 0x100, 0x104);
    assert_eq!(rc, 0, "environ_sizes_get must return 0 (success)");
    let want_count = EXPECTED_ENVIRON.len() as u32;
    let want_size: u32 = EXPECTED_ENVIRON.iter().map(|v| v.len() as u32).sum();
    assert_eq!(word(&mem, 0x100), want_count, "environ count");
    assert_eq!(word(&mem, 0x104), want_size, "buf_size = sum of NUL-terminated vars");
}

/// environ_get writes each env string to the buffer and a pointer to each in the
/// environ array.
#[test]
fn environ_get_writes_fixed_environ() {
    let mut mem = memory();
    let rc: i32 = environ_get(&mut mem, 0x200, 0x210);
    assert_eq!(rc, 0, "environ_get must return 0");
    let total: usize = EXPECTED_ENVIRON.iter().map(|v| v.len()).sum();
    let buf = mem[0x210..0x210 + total].to_vec();
    let mut expected: Vec<u8> = Vec::new();
    for v in EXPECTED_ENVIRON {
        expected.extend_from_slice(v);
    }
    assert_eq!(buf, expected, "environ buffer = vars back to back");
    let mut off = 0x210u32;
    for (i, v) in EXPECTED_ENVIRON.iter().enumerate() {
        let slot = 0x200usize + i * 4;
        assert_eq!(word(&mem, slot), off, "environ[{i}] must point at its string");
        off += v.len() as u32;
    }
    let as_str = String::from_utf8_lossy(&buf);
    assert!(as_str.contains("HOME=/home/burn"), "HOME must be set");
    assert!(
        as_str.contains("PYTHONUNBUFFERED=1"),
        "PYTHONUNBUFFERED=1 must be present"
    );
}

// ---- fd_write ---------------------------------------------------------------

/// fd_write on fd 1: bytes appended to the output; nwritten written.
#[test]
fn fd_write_fd1_appends_to_wasi_stdout() {
    let mut mem = memory();
    let mut fs = InMemFs::new();
    let mut out: Vec<u8> = Vec::new();
    put(&mut mem, 0x1000, b"hello");
    put(&mut mem, 0x1010, &(0x1000u32).to_le_bytes());
    put(&mut mem, 0x1014, &(5u32).to_le_bytes());
    let rc: i32 = fd_write(&mut fs, &mut out, &mut mem, 1, 0x1010, 1, 0x1020);
    assert_eq!(rc, 0, "fd_write must return 0 (success)");
    assert_eq!(word(&mem, 0x1020), 5, "nwritten must be 5");
    assert_eq!(out, b"hello");
}

/// fd_write on a file fd writes to the file node.
#[test]
fn fd_write_memfs_fd_writes_to_file() {
    let mut mem = memory();
    let mut fs = InMemFs::new();
    let mut out: Vec<u8> = Vec::new();
    fs.insert_file("/out.txt", Vec::new());
    let fd: i32 = fs.open("/out.txt".to_owned(), 1);
    assert!(fd >= 3);
    put(&mut mem, 0x2000, b"data");
    put(&mut mem, 0x2010, &(0x2000u32).to_le_bytes());
    put(&mut mem, 0x2014, &(4u32).to_le_bytes());
    let rc: i32 = fd_write(&mut fs, &mut out, &mut mem, fd, 0x2010, 1, 0x2020);
    assert_eq!(rc, 0, "fd_write to file must return 0");
    assert_eq!(word(&mem, 0x2020), 4, "nwritten must be 4");
    assert_eq!(fs.read_file("/out.txt").unwrap(), b"data");
    assert!(out.is_empty());
}

// ---- fd_read ----------------------------------------------------------------

/// fd_read on stdin (fd 0) returns 0 bytes (EOF).
#[test]
fn fd_read_stdin_returns_eof() {
    let mut mem = memory();
    let mut fs = InMemFs::new();
    put(&mut mem, 0x3000, &(0x3010u32).to_le_bytes());
    put(&mut mem, 0x3004, &(64u32).to_le_bytes());
    let rc: i32 = fd_read(&mut fs, &mut mem, 0, 0x3000, 1, 0x3020);
    assert_eq!(rc, 0, "fd_read on stdin must return 0 (no error)");
    assert_eq!(word(&mem, 0x3020), 0, "nread on stdin must be 0");
}

/// fd_read on a file fd reads bytes and advances offset.
#[test]
fn fd_read_memfs_fd_reads_content() {
    let mut mem = memory();
    let mut fs = InMemFs::new();
    fs.insert_file("/read_me.txt", b"abcde".to_vec());
    let fd: i32 = fs.open("/read_me.txt".to_owned(), 0);
    assert!(fd >= 3);
    put(&mut mem, 0x4000, &(0x4010u32).to_le_bytes());
    put(&mut mem, 0x4004, &(5u32).to_le_bytes());
    let rc: i32 = fd_read(&mut fs, &mut mem, fd, 0x4000, 1, 0x4020);
    assert_eq!(rc, 0, "fd_read must return 0 (success)");
    assert_eq!(word(&mem, 0x4020), 5, "nread must be 5");
    assert_eq!(&mem[0x4010..0x4015], b"abcde");
    assert_eq!(fs.offset_of(fd), Some(5));
}

// ---- fd_seek ----------------------------------------------------------------

/// fd_seek SEEK_SET on a file fd updates offset and writes new offset.
#[test]
fn fd_seek_seek_set_updates_offset() {
    let mut mem = memory();
    let mut fs = InMemFs::new();
    fs.insert_file("/seek_me.txt", b"0123456789".to_vec());
    let fd: i32 = fs.open("/seek_me.txt".to_owned(), 0);
    assert!(fd >= 3);
    let rc: i32 = fd_seek(&mut fs, &mut mem, fd, 5, 0, 0x5000);
    assert_eq!(rc, 0, "fd_seek must return 0 (success)");
    assert_eq!(long(&mem, 0x5000), 5, "new offset must be 5 after SEEK_SET to 5");
}

/// fd_seek on stdin (fd 0) returns 0 and writes 0 as the new offset.
#[test]
fn fd_seek_stdin_returns_zero() {
    let mut mem = memory();
    let mut fs = InMemFs::new();
    let rc: i32 = fd_seek(&mut fs, &mut mem, 0, 0, 0, 0x6000);
    assert_eq!(rc, 0, "fd_seek on stdin must return 0");
    assert_eq!(long(&mem, 0x6000), 0);
}

// ---- clock_time_get ---------------------------------------------------------

/// clock_time_get returns the deterministic epoch.
#[test]
fn clock_time_get_returns_deterministic_epoch() {
    let mut mem = memory();
    let rc: i32 = clock_time_get(&mut mem, 0x7000);
    assert_eq!(rc, 0, "clock_time_get must return 0");
    assert_eq!(long(&mem, 0x7000), VIRTUAL_EPOCH_NS);
}

/// Every clock tells the same deterministic time.
#[test]
fn clock_time_get_same_value_for_all_ids() {
    let mut mem = memory();
    clock_time_get(&mut mem, 0x7100);
    clock_time_get(&mut mem, 0x7108);
    let t0 = long(&mem, 0x7100);
    let t1 = long(&mem, 0x7108);
    assert_eq!(t0, t1, "all clocks must return the same deterministic epoch");
    assert_eq!(t0, VIRTUAL_EPOCH_NS);
}

// ---- random_get -------------------------------------------------------------

/// random_get is deterministic: same bytes on every call.
#[test]
fn random_get_same_seed_same_bytes() {
    let mut mem = memory();
    let rc1: i32 = random_get(&mut mem, 0x8000, 32);
    let bytes1 = mem[0x8000..0x8020].to_vec();
    put(&mut mem, 0x8000, &[0u8; 32]);
    let rc2: i32 = random_get(&mut mem, 0x8000, 32);
    let bytes2 = mem[0x8000..0x8020].to_vec();
    assert_eq!(rc1, 0, "random_get must return 0");
    assert_eq!(rc2, 0, "random_get must return 0 on second call");
    assert_eq!(bytes1, bytes2, "identical bytes on every call");
    assert_ne!(bytes1, vec![0u8; 32], "random_get must not return all zeros");
}

/// random_get fills exactly the requested byte count.
#[test]
fn random_get_fills_exact_length() {
    let mut mem = memory();
    let rc: i32 = random_get(&mut mem, 0x9000, 7);
    assert_eq!(rc, 0, "random_get must return 0");
    assert_ne!(mem[0x9000..0x9007].to_vec(), vec![0u8; 7]);
    assert_eq!(mem[0x9007], 0, "the byte behind the buffer is left alone");
}

/// random_get with len=0 is a no-op and returns 0.
#[test]
fn random_get_zero_len_is_noop() {
    let mut mem = memory();
    let rc: i32 = random_get(&mut mem, 0xa000, 0);
    assert_eq!(rc, 0, "random_get with len=0 must return 0");
    assert_eq!(mem, memory());
}

/// A shorter request gives a prefix of a longer one.
#[test]
fn random_bytes_are_a_prefix() {
    let mut mem = memory();
    random_get(&mut mem, 0x100, 40);
    random_get(&mut mem, 0x200, 11);
    assert_eq!(mem[0x100..0x10b], mem[0x200..0x20b]);
}

// ---- args_sizes_get ---------------------------------------------------------

/// args_sizes_get reports 0 args and 0 buf bytes.
#[test]
fn args_sizes_get_returns_zero() {
    let mut mem = memory();
    mem[0xb000..0xb008].fill(0xff);
    let rc: i32 = args_sizes_get(&mut mem, 0xb000, 0xb004);
    assert_eq!(rc, 0);
    assert_eq!(word(&mem, 0xb000), 0, "argc must be 0");
    assert_eq!(word(&mem, 0xb004), 0, "argv buf size must be 0");
}

// ---- paths and preopens -----------------------------------------------------

#[test]
fn the_root_preopen_is_reported() {
    let mut mem = memory();
    let fs = InMemFs::new_with_root_preopen();
    mem[0x100..0x108].fill(0xff);
    assert_eq!(fd_prestat_get(&fs, &mut mem, 3, 0x100), 0);
    assert_eq!(mem[0x100], 0);
    assert_eq!(word(&mem, 0x104), 1);
    assert_eq!(fd_prestat_dir_name(&fs, &mut mem, 3, 0x200, 1), 0);
    assert_eq!(mem[0x200], b'/');
    assert_eq!(fd_prestat_get(&fs, &mut mem, 4, 0x100), 8);
}

#[test]
fn path_open_creates_and_filestat_describes() {
    let mut mem = memory();
    let mut fs = InMemFs::new_with_root_preopen();
    put(&mut mem, 0x100, b"new.txt");
    assert_eq!(path_open(&mut fs, &mut mem, 3, 0x100, 7, 0, 0, 0x200), 44);
    assert_eq!(path_open(&mut fs, &mut mem, 3, 0x100, 7, 1, 0x40, 0x200), 0);
    let fd = word(&mem, 0x200) as i32;
    assert_eq!(fd, 4);
    assert!(fs.has_path("/new.txt"));
    assert_eq!(fs.write(fd, b"abc"), 3);
    assert_eq!(path_filestat_get(&mut fs, &mut mem, 3, 0x100, 7, 0x300), 0);
    assert_eq!(mem[0x310], 4);
    assert_eq!(long(&mem, 0x320), 3);
    assert_eq!(fd_fdstat_get(&fs, &mut mem, fd, 0x400), 0);
    assert_eq!(fd_close(&mut fs, fd), 0);
    assert_eq!(fd_close(&mut fs, fd), 8);
}

#[test]
fn path_open_asks_for_a_directory_or_a_new_file() {
    let mut mem = memory();
    let mut fs = InMemFs::new_with_root_preopen();
    put(&mut mem, 0x100, b"f");
    put(&mut mem, 0x110, b"d");
    // Bit 1: there must be a directory.
    assert_eq!(path_open(&mut fs, &mut mem, 3, 0x100, 1, 2, 0, 0x200), 44);
    assert_eq!(path_open(&mut fs, &mut mem, 3, 0x100, 1, 3, 0x40, 0x200), 44);
    assert!(!fs.has_path("/f"));
    // Bits 0 and 2: the file must be new.
    assert_eq!(path_open(&mut fs, &mut mem, 3, 0x100, 1, 5, 0x40, 0x200), 0);
    assert_eq!(path_open(&mut fs, &mut mem, 3, 0x100, 1, 5, 0x40, 0x200), 8);
    assert_eq!(path_open(&mut fs, &mut mem, 3, 0x100, 1, 1, 0x40, 0x200), 0);
    assert_eq!(path_open(&mut fs, &mut mem, 3, 0x100, 1, 2, 0, 0x200), 8);
    fs.mkdir_p("/d");
    assert_eq!(path_open(&mut fs, &mut mem, 3, 0x110, 1, 2, 0, 0x200), 0);
}

#[test]
fn positioned_reads_do_not_move() {
    let mut mem = memory();
    let mut fs = InMemFs::new();
    fs.insert_file("/p", b"0123456789".to_vec());
    let fd: i32 = fs.open("/p".to_owned(), 0);
    put(&mut mem, 0x100, &(0x200u32).to_le_bytes());
    put(&mut mem, 0x104, &(4u32).to_le_bytes());
    assert_eq!(fd_pread(&fs, &mut mem, fd, 0x100, 1, 3, 0x300), 0);
    assert_eq!(&mem[0x200..0x204], b"3456");
    assert_eq!(word(&mem, 0x300), 4);
    assert_eq!(fs.offset_of(fd), Some(0));
}

#[test]
fn small_answers() {
    let mut mem = memory();
    assert_eq!(clock_res_get(&mut mem, 0x100), 0);
    assert_eq!(long(&mem, 0x100), 1);
    assert_eq!(poll_oneoff(&mut mem, 0x200), 0);
    assert_eq!(word(&mem, 0x200), 0);
    let rc: i32 = fd_pwrite(&mut mem, 0x300);
    assert_eq!(rc, 0);
    assert_eq!(exit_message(3), "proc_exit(3)");
    assert_eq!(exit_message(-1), "proc_exit(-1)");
}
