//! Call logs, memory configuration and default values.

use afterburner_wasi::emscripten_jsffi::{call_stub, jsffi_stubs};
use afterburner_wasi::emscripten_runtime::{
    default_val_for, import_name, invoke_recovery, setting, setting_read, trap_label,
    unknown_imports, wasm_memory_config, wasm_memory_config_from, JsFfiCallLog, MechCallLog,
    NoopCallLog, RefKind, Val, ValType,
};
use afterburner_wasi::ring::PathLog;

// ---- MechCallLog ------------------------------------------------------------

/// Ring drops oldest when capacity is exceeded; tail returns the last `n`.
#[test]
fn emscripten_runtime_mech_call_log_ring_capacity() {
    const CAP: usize = 64;
    let mut log = MechCallLog::new();
    for i in 0..CAP + 1 {
        log.push("x", i as i32, 0);
    }
    assert_eq!(log.len(), CAP, "ring must cap at 64");
    let tail = log.tail(1);
    assert_eq!(tail[0].arg0, CAP as i32, "tail must be the last pushed");
}

/// Push "a", "b", "c"; tail(2) returns ["b", "c"] in order.
#[test]
fn mech_call_log_push_tail_ordering() {
    let mut log = MechCallLog::new();
    log.push("a", 0, 0);
    log.push("b", 0, 0);
    log.push("c", 0, 0);
    let tail = log.tail(2);
    assert_eq!(tail.len(), 2);
    assert_eq!(tail[0].name, "b");
    assert_eq!(tail[1].name, "c");
}

#[test]
fn a_new_log_is_empty() {
    let log = MechCallLog::new();
    assert!(log.is_empty());
    assert_eq!(log.len(), 0);
    assert!(log.tail(5).is_empty());
}

// ---- other logs -------------------------------------------------------------

/// record + snapshot: sorted output; total_calls counts all including repeats.
#[test]
fn jsffi_call_log_record_snapshot() {
    let mut log = JsFfiCallLog::new();
    log.record("foo");
    log.record("foo");
    log.record("foo");
    log.record("bar");
    let snap = log.snapshot();
    assert!(snap.contains(&"bar".to_string()));
    assert!(snap.contains(&"foo".to_string()));
    assert_eq!(log.total_calls(), 4);
    assert_eq!(snap, vec!["bar".to_string(), "foo".to_string()]);
}

#[test]
fn noop_calls_are_kept_in_order() {
    let mut log = NoopCallLog::new();
    log.record("b");
    log.record("a");
    assert_eq!(log.snapshot(), vec!["b".to_string(), "a".to_string()]);
}

#[test]
fn paths_are_logged_with_a_tag() {
    let mut log = PathLog::new();
    log.push("open", "/x");
    let lines = log.lines();
    assert_eq!(lines.len(), 1);
    assert!(lines[0].contains("open"));
    assert!(lines[0].contains("/x"));
}

#[test]
fn a_stub_logs_its_call() {
    let stubs = jsffi_stubs();
    let mut log = JsFfiCallLog::new();
    let results = call_stub(&mut log, &stubs[0]);
    assert_eq!(results.len(), stubs[0].results.len());
    assert_eq!(log.snapshot(), vec![stubs[0].name.clone()]);
    assert_eq!(log.total_calls(), 1);
}

// ---- default_val_for --------------------------------------------------------

/// I32 type yields Val::I32(0).
#[test]
fn default_val_for_i32() {
    let v = default_val_for(&ValType::I32);
    assert!(matches!(v, Val::I32(0)));
}

/// EXTERNREF type yields a null externref.
#[test]
fn default_val_for_externref() {
    let v = default_val_for(&ValType::Ref { kind: RefKind::Extern, nullable: true });
    assert!(matches!(v, Val::Ref { kind: RefKind::Extern, handle: None }));
}

/// FUNCREF type yields a null funcref.
#[test]
fn default_val_for_funcref() {
    let v = default_val_for(&ValType::Ref { kind: RefKind::Func, nullable: true });
    assert!(matches!(v, Val::Ref { kind: RefKind::Func, handle: None }));
}

// ---- wasm_memory_config_from ------------------------------------------------

/// Default byte values produce the documented page counts.
#[test]
fn wasm_memory_config_from_defaults() {
    let cfg = wasm_memory_config_from(31_457_280, 4_294_967_296, 10_485_760)
        .expect("default byte values must parse");
    assert_eq!(cfg.initial_pages, 480, "initial pages mismatch");
    assert_eq!(cfg.max_pages, 65_536, "max pages mismatch");
    assert_eq!(
        cfg.stack_size_bytes,
        10 * 1024 * 1024,
        "stack size mismatch"
    );
}

/// 2 GiB max produces 32768 pages.
#[test]
fn wasm_memory_config_from_2gib_max() {
    let cfg = wasm_memory_config_from(31_457_280, 2_147_483_648, 10_485_760)
        .expect("2GiB max must parse");
    assert_eq!(cfg.max_pages, 32_768, "2GiB should be 32768 pages");
}

/// initial > max returns Err.
#[test]
fn wasm_memory_config_from_initial_gt_max_is_err() {
    let result = wasm_memory_config_from(131_072, 65_536, 10_485_760);
    assert!(result.is_err(), "initial > max must return Err");
    assert_eq!(
        result.err().unwrap(),
        "BURN_WASM_MEMORY_INITIAL_BYTES=131072 > BURN_WASM_MEMORY_MAX_BYTES=65536"
    );
}

/// max > 4 GiB returns Err.
#[test]
fn wasm_memory_config_from_max_exceeds_wasm32_is_err() {
    let result = wasm_memory_config_from(65_536, 4_294_967_297, 10_485_760);
    assert!(result.is_err(), "max > 4GiB must return Err");
    assert_eq!(
        result.err().unwrap(),
        "BURN_WASM_MEMORY_MAX_BYTES=4294967297 exceeds wasm32 limit (4294967296)"
    );
}

/// zero initial returns Err.
#[test]
fn wasm_memory_config_from_zero_initial_is_err() {
    let result = wasm_memory_config_from(0, 4_294_967_296, 10_485_760);
    assert!(result.is_err(), "zero initial must return Err");
}

/// 1 byte initial rounds up to 1 page.
#[test]
fn wasm_memory_config_from_bytes_round_up_to_pages() {
    let cfg = wasm_memory_config_from(1, 65_536, 10_485_760).expect("1-byte initial must parse");
    assert_eq!(cfg.initial_pages, 1, "1 byte should round up to 1 page");
}

/// Exactly one page initial stays at 1 page (no rounding needed).
#[test]
fn wasm_memory_config_from_exact_page_no_roundup() {
    let cfg = wasm_memory_config_from(65_536, 65_536, 10_485_760).expect("exact page must parse");
    assert_eq!(cfg.initial_pages, 1);
    assert_eq!(cfg.max_pages, 1);
}

#[test]
fn zero_max_and_zero_stack_are_refused() {
    let max = wasm_memory_config_from(1, 0, 1).err().unwrap();
    assert_eq!(max, "BURN_WASM_MEMORY_MAX_BYTES must be > 0");
    let stack = wasm_memory_config_from(1, 1, 0).err().unwrap();
    assert_eq!(stack, "BURN_WASM_STACK_SIZE_BYTES must be > 0");
}

// ---- settings ---------------------------------------------------------------

#[test]
fn settings_are_trimmed_numbers() {
    assert_eq!(setting("N", &None, 5), Ok(5));
    assert_eq!(setting("N", &Some(String::new()), 5), Ok(5));
    assert_eq!(setting("N", &Some(" 42\n".to_owned()), 5), Ok(42));
    assert_eq!(
        setting("N", &Some(" 4x ".to_owned()), 5),
        Err("N=\" 4x \" is not a valid u64: invalid digit found in string".to_owned())
    );
    assert_eq!(setting_read("N", "9", Ok(9)), Ok(9));
    assert_eq!(
        setting_read("N", "q", Err("why".to_owned())),
        Err("N=q is not a valid u64: why".to_owned())
    );
}

#[test]
fn the_configuration_comes_from_three_settings() {
    let cfg = wasm_memory_config(None, Some("131072".to_owned()), None);
    assert!(cfg.is_err(), "the default initial size is larger");
    let cfg = wasm_memory_config(
        Some("65537".to_owned()),
        Some("131072".to_owned()),
        Some("1".to_owned()),
    )
    .unwrap();
    assert_eq!((cfg.initial_pages, cfg.max_pages, cfg.stack_size_bytes), (2, 2, 1));
}

// ---- imports ----------------------------------------------------------------

#[test]
fn unknown_imports_are_named_in_order() {
    let imports = vec![
        ("env".to_owned(), "a".to_owned()),
        ("env".to_owned(), "b".to_owned()),
        ("GOT.mem".to_owned(), "c".to_owned()),
    ];
    let names = unknown_imports(&imports, &vec![false, true, false]);
    assert_eq!(names, vec!["env::a".to_owned(), "GOT.mem::c".to_owned()]);
    assert_eq!(import_name("env", "x"), "env::x");
    assert_eq!(trap_label("env", "x"), "unimplemented import: env::x");
}

#[test]
fn a_failed_callee_gives_zeros() {
    let (sp, results) = invoke_recovery(128, &vec![ValType::I32, ValType::I64]);
    assert_eq!(sp, Some(128));
    assert!(matches!(results[0], Val::I32(0)));
    assert!(matches!(results[1], Val::I64(0)));
    let extern_ref = ValType::Ref { kind: RefKind::Extern, nullable: true };
    let (_, results) = invoke_recovery(128, &vec![ValType::F64, extern_ref]);
    assert_eq!(
        results,
        [Val::F64(0), Val::Ref { kind: RefKind::Extern, handle: None }]
    );
    let (sp, _) = invoke_recovery(0, &Vec::new());
    assert_eq!(sp, None);
}
