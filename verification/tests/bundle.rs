//! Bundles, archives, scripts and the state of a call.

use afterburner_wasi::emscripten_fs::{FsNode, InMemFs};
use afterburner_wasi::host::{HostState, InputFormat};
use afterburner_wasi::intake::{input_bytes, serialize_input, CodecError};
use afterburner_wasi::nozzle::{output_document, output_value, parse_output};
use afterburner_wasi::pyodide_bundle::{join_path, read_manifest, resolve_dir};
use afterburner_wasi::pyodide_columnar::{
    check_run, full_source, no_output_message, py_columnar_driver, run_outcome, validate_entry_fn_name, GUEST_MOUNT,
    INPUT_FILE, OUTPUT_FILE, PY_COLUMNAR_PREAMBLE,
};
use afterburner_wasi::pyodide_embed::{
    core_manifest, core_present, staging_name, CORE_STDLIB_FILE, CORE_WASM_FILE,
};
use afterburner_wasi::zip_mount::{
    mount_zip_into_fs, read_step, ZipEntry, ZipStep, DEFLATED, STORED,
};

// ---- manifest ---------------------------------------------------------------

const MANIFEST: &str = "version=0\npython=3.13\nwasm=pyodide-exnref.wasm\nstdlib=python_stdlib.zip\nwheel=numpy.exnref.whl\n";

fn fixture(dir: &str) -> Vec<String> {
    ["pyodide-exnref.wasm", "python_stdlib.zip", "numpy.exnref.whl"]
        .iter()
        .map(|f| join_path(dir, f))
        .collect()
}

/// A complete bundle dir resolves to every listed path.
#[test]
fn resolves_a_complete_bundle() {
    let dir = "/home/burn/.burn/pyodide-0";
    let files = fixture(dir);
    let rt = resolve_dir(dir, Some(MANIFEST), &files).expect("a complete bundle resolves");
    assert!(files.contains(&rt.wasm_path));
    assert!(files.contains(&rt.stdlib_path));
    assert_eq!(rt.python_xy, "3.13");
    assert_eq!(rt.wheels.len(), 1);
    assert_eq!(rt.wheels[0], "/home/burn/.burn/pyodide-0/numpy.exnref.whl");
}

/// A bundle whose manifest lists a missing file resolves to `None`.
#[test]
fn partial_bundle_resolves_none() {
    let dir = "/b";
    let mut files = fixture(dir);
    files.retain(|f| !f.ends_with("python_stdlib.zip"));
    assert!(resolve_dir(dir, Some(MANIFEST), &files).is_none());
}

/// An absent manifest resolves to `None`, never a panic.
#[test]
fn missing_manifest_resolves_none() {
    assert!(resolve_dir("/b", None, &fixture("/b")).is_none());
}

#[test]
fn a_malformed_manifest_resolves_none() {
    let files = fixture("/b");
    let broken = "wasm=pyodide-exnref.wasm\nno pair here\nstdlib=python_stdlib.zip\n";
    assert!(resolve_dir("/b", Some(broken), &files).is_none());
    assert!(resolve_dir("/b", Some("stdlib=python_stdlib.zip\n"), &files).is_none());
    assert!(resolve_dir("/b", Some(""), &files).is_none());
}

#[test]
fn the_last_value_and_the_default_count() {
    let text = "wasm=old\r\nstdlib=s.zip\r\nwasm=/abs/new=1";
    let rt = read_manifest("/b/", text).unwrap();
    assert_eq!(rt.wasm_path, "/abs/new=1");
    assert_eq!(rt.stdlib_path, "/b/s.zip");
    assert_eq!(rt.python_xy, "3.13");
    assert!(rt.wheels.is_empty());
    assert_eq!(rt.files(), vec!["/abs/new=1".to_owned(), "/b/s.zip".to_owned()]);
}

#[test]
fn names_are_joined_like_paths() {
    assert_eq!(join_path("/a", "b"), "/a/b");
    assert_eq!(join_path("/a/", "b"), "/a/b");
    assert_eq!(join_path("", "b"), "b");
    assert_eq!(join_path("/a", "/b"), "/b");
    assert_eq!(join_path("/a", ""), "/a/");
}

// ---- embedded core ----------------------------------------------------------

#[test]
fn the_core_manifest_describes_the_core() {
    let text = core_manifest("0.28.0", "3.13");
    assert!(text.contains("wasm=pyodide-exnref.wasm"));
    assert!(text.contains("stdlib=python_stdlib.zip"));
    assert!(!text.contains("wheel="), "core manifest lists no wheels");
    let files = vec![join_path("/c", CORE_WASM_FILE), join_path("/c", CORE_STDLIB_FILE)];
    let rt = resolve_dir("/c", Some(text.as_str()), &files).unwrap();
    assert_eq!(rt.files(), files);
    assert_eq!(rt.python_xy, "3.13");
    assert!(core_present(true, true));
    assert!(!core_present(true, false));
    assert!(!core_present(false, true));
    assert_eq!(staging_name(71), "pyodide-embed.staging-71");
}

// ---- archives ---------------------------------------------------------------

fn record(name: &[u8], method: u16, packed: &[u8], full: u32) -> Vec<u8> {
    let mut out: Vec<u8> = Vec::new();
    out.extend_from_slice(&0x04034b50u32.to_le_bytes());
    out.extend_from_slice(&[20, 0, 0, 0]);
    out.extend_from_slice(&method.to_le_bytes());
    out.extend_from_slice(&[0u8; 8]);
    out.extend_from_slice(&(packed.len() as u32).to_le_bytes());
    out.extend_from_slice(&full.to_le_bytes());
    out.extend_from_slice(&(name.len() as u16).to_le_bytes());
    out.extend_from_slice(&2u16.to_le_bytes());
    out.extend_from_slice(name);
    out.extend_from_slice(&[9, 9]);
    out.extend_from_slice(packed);
    out
}

fn central() -> Vec<u8> {
    let mut out = 0x02014b50u32.to_le_bytes().to_vec();
    out.extend_from_slice(&[0u8; 60]);
    out
}

/// "hello" as a stored block of a DEFLATE stream.
fn deflated_hello() -> Vec<u8> {
    let mut out = vec![1u8, 5, 0, 250, 255];
    out.extend_from_slice(b"hello");
    out
}

#[test]
fn an_archive_is_mounted_under_its_prefix() {
    let mut zip = record(b"pkg/", STORED, b"", 0);
    zip.extend(record(b"pkg/a.py", STORED, b"print(1)", 8));
    zip.extend(record(b"pkg/b.py", DEFLATED, &deflated_hello(), 5));
    zip.extend(record(b"\xff\xfe", STORED, b"lost", 4));
    zip.extend(record(b"pkg/c.bz2", 12, b"????", 4));
    zip.extend(central());
    let mut fs = InMemFs::new();
    assert_eq!(mount_zip_into_fs(&mut fs, "/lib/python", &zip), Ok(2));
    assert!(matches!(fs.get("/lib/python/pkg"), Some(FsNode::Dir)));
    assert_eq!(fs.read_file("/lib/python/pkg/a.py"), Some(b"print(1)".as_slice()));
    assert_eq!(fs.read_file("/lib/python/pkg/b.py"), Some(b"hello".as_slice()));
    assert!(!fs.has_path("/lib/python/pkg/c.bz2"));
    let names: Vec<String> = fs
        .list_dir("/lib/python/pkg")
        .unwrap()
        .into_iter()
        .map(|e| e.0)
        .collect();
    assert_eq!(names, vec!["a.py".to_owned(), "b.py".to_owned()]);
}

#[test]
fn an_empty_file_is_a_file() {
    let zip = [b"PK\x03\x04".as_slice(), &[20, 0], &[0; 20], &[4, 0, 0, 0], b"a.py"].concat();
    assert_eq!(zip.len(), 34);
    let mut fs = InMemFs::new();
    assert_eq!(mount_zip_into_fs(&mut fs, "/lib", &zip), Ok(1));
    assert_eq!(fs.read_file("/lib/a.py"), Some(b"".as_slice()));
    // A deflated empty file, and files without any bytes.
    let mut zip = record(b"b.py", DEFLATED, &[3, 0], 0);
    zip.extend(record(b"c.py", DEFLATED, b"", 0));
    zip.extend(record(b"e.py", 12, b"", 0));
    zip.extend(record(b"d/", DEFLATED, b"", 0));
    assert_eq!(mount_zip_into_fs(&mut fs, "/lib", &zip), Ok(3));
    assert_eq!(fs.read_file("/lib/e.py"), Some(b"".as_slice()));
    assert_eq!(fs.read_file("/lib/b.py"), Some(b"".as_slice()));
    assert_eq!(fs.read_file("/lib/c.py"), Some(b"".as_slice()));
    assert_eq!(fs.read_file("/lib/d"), None);
    assert!(fs.has_path("/lib/d"));
}

#[test]
fn a_broken_stream_ends_the_mount() {
    let mut zip = record(b"ok.txt", STORED, b"ok", 2);
    zip.extend(record(b"bad.txt", DEFLATED, &[7, 7, 7], 5));
    zip.extend(record(b"late.txt", STORED, b"late", 4));
    let mut fs = InMemFs::new();
    let r = mount_zip_into_fs(&mut fs, "/z", &zip);
    assert!(r.err().unwrap().starts_with("deflate error for bad.txt: "));
    assert!(fs.has_path("/z/ok.txt"));
    assert!(!fs.has_path("/z/late.txt"));
}

#[test]
fn junk_before_an_entry_is_passed_over() {
    let mut zip = b"junk".to_vec();
    zip.extend(record(b"x", STORED, b"1", 1));
    let mut fs = InMemFs::new();
    assert_eq!(mount_zip_into_fs(&mut fs, "/", &zip), Ok(1));
    assert_eq!(fs.read_file("/x"), Some(b"1".as_slice()));
    let mut fs = InMemFs::new();
    zip.pop();
    assert_eq!(mount_zip_into_fs(&mut fs, "/", &zip), Ok(0), "a cut-off entry is none");
}

#[test]
fn a_header_is_read_field_by_field() {
    let zip = record(b"n.txt", DEFLATED, b"abc", 77);
    match read_step(&zip, 0) {
        ZipStep::Entry(e, next) => {
            assert_eq!(e.name, "n.txt");
            assert_eq!(e.method, DEFLATED);
            assert_eq!(e.packed, b"abc");
            assert_eq!(e.full_size, 77);
            assert_eq!(next, zip.len());
        }
        _ => panic!("expected an entry"),
    }
    assert!(matches!(read_step(&zip, 1), ZipStep::Skip(2)));
    assert!(matches!(read_step(&central(), 0), ZipStep::Stop));
}

#[test]
fn an_entry_is_placed_by_what_unpacking_gave() {
    let entry = ZipEntry {
        name: "d/../f".to_owned(),
        method: DEFLATED,
        packed: vec![1],
        full_size: 9,
    };
    let mut fs = InMemFs::new();
    assert_eq!(entry.place(&mut fs, "/p", Ok(b"real".to_vec())), Ok(true));
    assert_eq!(fs.read_file("/p/f"), Some(b"real".as_slice()));
    let r = entry.place(&mut fs, "/p", Err("cut".to_owned()));
    assert_eq!(r, Err("deflate error for d/../f: cut".to_owned()));
    assert!(!entry.is_dir());
}

// ---- columnar scripts -------------------------------------------------------

#[test]
fn the_driver_calls_the_entry_function() {
    let driver = py_columnar_driver("add_cols");
    let want = format!(
        "\nwith open('{GUEST_MOUNT}/{INPUT_FILE}', 'rb') as _ab_f:\n    _ab_blob = _ab_f.read()\n\
         _ab_row_count, _ab_columns = _ab_decode_batch(_ab_blob)\n\
         _ab_result = add_cols({{'row_count': _ab_row_count, 'columns': _ab_columns}})\n\
         if not isinstance(_ab_result, dict) or 'row_count' not in _ab_result or 'columns' not in _ab_result:\n    \
         raise ValueError(\"columnar UDF: result must be a dict with 'row_count' and 'columns'\")\n\
         _ab_out_bytes = _ab_encode_batch(_ab_result['row_count'], _ab_result['columns'])\n\
         with open('{GUEST_MOUNT}/{OUTPUT_FILE}', 'wb') as _ab_f:\n    _ab_f.write(_ab_out_bytes)\n"
    );
    assert_eq!(driver, want);
    let source = full_source("def f(b): return b", "f").unwrap();
    assert!(source.starts_with(PY_COLUMNAR_PREAMBLE));
    assert!(source.contains("\ndef f(b): return b\n\nwith open("));
    assert!(source.ends_with("_ab_f.write(_ab_out_bytes)\n"));
}

#[test]
fn run_python_columnar_rejects_bad_entry_fn_name() {
    let err = full_source("def x(b): return b", "not an ident")
        .expect_err("invalid identifier must be rejected before any run");
    assert!(err.to_string().contains("not a valid identifier"), "{err}");
    for name in ["", "1st", "a-b", "f()", "f;import os", "\u{e9}t\u{e9}", "a.b"] {
        assert!(validate_entry_fn_name(name).is_err(), "{name}");
    }
    for name in ["f", "_", "_f1", "Add_cols9"] {
        assert_eq!(validate_entry_fn_name(name), Ok(()), "{name}");
    }
}

#[test]
fn a_failed_run_names_its_stderr() {
    assert_eq!(check_run("f", 0, b"noise"), Ok(()));
    assert_eq!(
        check_run("f", 1, b"Traceback\xff"),
        Err("columnar python UDF 'f' exited 1: Traceback\u{fffd}".to_owned())
    );
    assert_eq!(
        run_outcome("f", -2, "x"),
        Err("columnar python UDF 'f' exited -2: x".to_owned())
    );
    assert_eq!(
        no_output_message("f", "/t/output.bin", "gone"),
        "columnar python UDF 'f' produced no output (/t/output.bin: gone)"
    );
}

// ---- call state and JSON ----------------------------------------------------

#[test]
fn a_fresh_call_is_idle() {
    let s = HostState::new(100);
    assert_eq!(s.output_ceiling, 100);
    assert!(s.pending_input.is_empty());
    assert_eq!(s.input_format, InputFormat::Json);
    assert_eq!(s.next_timer_id, 1);
    assert!(!s.output_overflowed(false));
    assert!(s.output_overflowed(true));
    let mut s = HostState::new_with_input(vec![1, 2], InputFormat::Raw, 5);
    assert_eq!(s.pending_input, vec![1, 2]);
    assert_eq!(s.input_format, InputFormat::Raw);
    s.raw_output_overflow = true;
    assert!(s.output_overflowed(false));
    assert_eq!(InputFormat::Json.code(), 0);
    assert_eq!(InputFormat::Raw.code(), 1);
    assert_eq!(InputFormat::default(), InputFormat::Json);
}

#[test]
fn values_are_written_and_read() {
    let value: serde_json::Value = serde_json::from_str("{\"a\": [1, null, \"x\"]}").unwrap();
    let bytes = serialize_input(&value).unwrap();
    assert_eq!(bytes, b"{\"a\":[1,null,\"x\"]}");
    assert_eq!(parse_output(&bytes).unwrap(), value);
    assert_eq!(parse_output(b" 7 \n").unwrap(), serde_json::Value::from(7));
}

#[test]
fn no_output_is_null() {
    assert_eq!(parse_output(b"").unwrap(), serde_json::Value::Null);
    assert_eq!(output_document(b""), b"null");
    assert_eq!(output_document(b"1"), b"1");
}

#[test]
fn output_that_is_no_document_is_an_error() {
    match parse_output(b"{") {
        Err(CodecError::Serialize(reason)) => assert!(reason.contains("EOF")),
        Ok(v) => panic!("{v}"),
    }
    match output_value(Err("why".to_owned())) {
        Err(CodecError::Serialize(reason)) => assert_eq!(reason, "why"),
        Ok(v) => panic!("{v}"),
    }
    match input_bytes(Err("why".to_owned())) {
        Err(CodecError::Serialize(reason)) => assert_eq!(reason, "why"),
        Ok(v) => panic!("{v:?}"),
    }
}
