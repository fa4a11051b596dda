//! What holds of the filesystem and the byte formats as a whole, on examples.

use afterburner_wasi::bytes::{i32_at, read_bytes, u16_at, u32_at, write_bytes, write_u32, write_u64};
use afterburner_wasi::emscripten_fs::{
    resolve_to_host_path, FsNode, InMemFs, EISDIR, ENOENT, O_CREAT, O_RDWR, O_TRUNC,
};
use afterburner_wasi::fs_path::{canonicalize, names_of, parent_of, render_path};
use afterburner_wasi::text::{is_blank, split_chars, trim_text};

#[test]
fn numbers_are_read_as_they_were_written() {
    let mut mem = vec![0u8; 16];
    assert!(write_u32(&mut mem, 4, 0x0102_0304));
    assert_eq!(&mem[4..8], &[4, 3, 2, 1]);
    assert_eq!(u32_at(&mem, 4), 0x0102_0304);
    assert_eq!(u16_at(&mem, 4), 0x0304);
    assert!(write_u32(&mut mem, 4, -5i32 as u32));
    assert_eq!(i32_at(&mem, 4), -5);
    assert!(write_u64(&mut mem, 8, 1 << 40));
    assert_eq!(mem[13], 1);
    assert!(!write_u32(&mut mem, 13, 1));
    assert!(!write_u64(&mut mem, -1, 1));
}

#[test]
fn what_is_written_to_memory_is_read_back() {
    let mut mem = vec![9u8; 8];
    assert!(write_bytes(&mut mem, 2, b"abc"));
    assert_eq!(mem, b"\x09\x09abc\x09\x09\x09");
    assert_eq!(read_bytes(&mem, 2, 3), Some(b"abc".to_vec()));
    assert_eq!(read_bytes(&mem, 6, 3), None);
}

#[test]
fn a_canonical_path_is_its_own_canonical_form() {
    for path in ["/", "/a", "/a/b", "//x/../y/./z/"] {
        let once = canonicalize(path);
        assert_eq!(canonicalize(&once), once);
        assert_eq!(render_path(&names_of(&once)).iter().collect::<String>(), once);
    }
    assert_eq!(parent_of("/a/b"), Some("/a".to_owned()));
    assert_eq!(parent_of("/a"), Some("/".to_owned()));
    assert_eq!(parent_of("/"), None);
}

#[test]
fn a_text_is_split_at_every_separator() {
    let parts = split_chars(&['a', '/', '/', 'b'], '/');
    assert_eq!(parts, vec![vec!['a'], vec![], vec!['b']]);
}

#[test]
fn the_root_stays_a_directory() {
    let mut fs = InMemFs::new();
    fs.mkdir_p("/a/b");
    fs.insert_file("/f", b"x".to_vec());
    assert_eq!(fs.open("/".to_owned(), O_RDWR | O_CREAT | O_TRUNC), EISDIR);
    let fd = fs.open("/f".to_owned(), O_RDWR);
    fs.write(fd, b"y");
    assert_eq!(fs.unlink("/a/b"), 0);
    for path in ["/", "", "/a/..", "//"] {
        fs.insert_file(path, b"x".to_vec());
        assert!(matches!(fs.get("/"), Some(FsNode::Dir)), "{path}");
    }
    assert_eq!(fs.unlink("/"), EISDIR);
    assert!(matches!(fs.get("/"), Some(FsNode::Dir)));
}

#[test]
fn opening_changes_the_opened_file_alone() {
    let mut fs = InMemFs::new();
    fs.insert_file("/a", b"1".to_vec());
    fs.insert_file("/b", b"2".to_vec());
    let fd = fs.open("/a".to_owned(), O_RDWR | O_TRUNC);
    assert_eq!(fs.read_file("/a"), Some(&b""[..]));
    assert_eq!(fs.read_file("/b"), Some(&b"2"[..]));
    assert_eq!(fs.offset_of(fd), Some(0));
    assert_eq!(fs.open("/none".to_owned(), 0), ENOENT);
    assert_eq!(fs.open("/b".to_owned(), 0), fd + 1);
}

#[test]
fn nothing_is_read_behind_the_end() {
    let mut fs = InMemFs::new();
    fs.insert_file("/f", b"abc".to_vec());
    let fd = fs.open("/f".to_owned(), 0);
    assert_eq!(fs.lseek(fd, 10, 0), 10);
    let mut buf = [7u8; 4];
    assert_eq!(fs.read(fd, &mut buf), 0);
    assert_eq!(fs.pread(fd, &mut buf, 3), 0);
    assert_eq!(buf, [7u8; 4]);
    assert_eq!(fs.pread(fd, &mut buf, 1), 2);
    assert_eq!(&buf, b"bc\x07\x07");
}

#[test]
fn an_inserted_file_is_listed_in_its_directory() {
    let mut fs = InMemFs::new();
    fs.insert_file("/lib/py/x.py", b"".to_vec());
    assert_eq!(fs.list_dir("/lib"), Some(vec![("py".to_owned(), true)]));
    assert_eq!(fs.list_dir("/lib/py"), Some(vec![("x.py".to_owned(), false)]));
}

#[test]
fn a_mount_ends_at_a_slash() {
    let mounts = vec![
        ("/host/a".to_owned(), "/data".to_owned()),
        ("/host/b".to_owned(), "/data/deep/".to_owned()),
    ];
    let found = resolve_to_host_path("/data/x/y", &mounts).unwrap();
    assert_eq!((found.root, found.child), (0, Some("x/y".to_owned())));
    let found = resolve_to_host_path("/data", &mounts).unwrap();
    assert_eq!((found.root, found.child), (0, None));
    assert!(resolve_to_host_path("/dataextra", &mounts).is_none());
    assert!(resolve_to_host_path("/other", &mounts).is_none());
    let deep = vec![("/host/b".to_owned(), "/data/deep/".to_owned())];
    let found = resolve_to_host_path("/data/deep/z", &deep).unwrap();
    assert_eq!((found.root, found.child), (0, Some("z".to_owned())));
}

#[test]
fn white_space_is_what_unicode_says() {
    for n in 0..=0x10ffffu32 {
        if let Some(c) = char::from_u32(n) {
            assert_eq!(is_blank(c), c.is_whitespace(), "U+{n:04X}");
        }
    }
    assert_eq!(trim_text("\u{3000} a b\t\u{a0}"), "a b");
    assert_eq!(trim_text(" \n "), "");
}
