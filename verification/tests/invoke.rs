//! The trampolines: the first argument is the table index, the others are
//! forwarded with exactly the callee's arity.

use afterburner_wasi::emscripten_invoke::{invoke_signature, trampolines};
use afterburner_wasi::emscripten_runtime::{invoke_dispatch, invoke_index, Val, ValType};

/// A table in which the callee of arity 0 returns 1000 and every other one the
/// sum of its arguments.
fn table() -> Vec<Option<Vec<ValType>>> {
    let mut slots: Vec<Option<Vec<ValType>>> = vec![None];
    for arity in 0..6usize {
        slots.push(Some(vec![ValType::I32; arity]));
    }
    slots.push(None);
    slots
}

fn run_callee(args: &[Val]) -> i32 {
    if args.is_empty() {
        return 1000;
    }
    let mut sum = 0i32;
    for v in args {
        match v {
            Val::I32(x) => sum += x,
            _ => panic!("not an i32"),
        }
    }
    sum
}

fn drive_invoke_iiii(idx: i32, a: i32, b: i32, c: i32) -> Result<i32, String> {
    let params = vec![Val::I32(idx), Val::I32(a), Val::I32(b), Val::I32(c)];
    let index: u64 = invoke_index(&params).expect("index");
    let slots = table();
    let args = invoke_dispatch(index, &slots[index as usize], &params)?;
    Ok(run_callee(&args))
}

/// Arity 0 callee: receives no args; all 3 forwarded args are dropped.
#[test]
fn trampoline_arity0_truncates_extra_args() {
    assert_eq!(
        drive_invoke_iiii(1, 10, 20, 30),
        Ok(1000),
        "arity-0 callee must return 1000 (extra args dropped)"
    );
}

/// Arity 1 callee: receives first forwarded arg (10); extras dropped.
#[test]
fn trampoline_arity1_passes_first_arg() {
    assert_eq!(drive_invoke_iiii(2, 10, 20, 30), Ok(10));
}

/// Arity 2 callee: receives arg0=10, arg1=20; arg2=30 dropped.
#[test]
fn trampoline_arity2_passes_two_args() {
    assert_eq!(drive_invoke_iiii(3, 10, 20, 30), Ok(30));
}

/// Arity 3 callee: all 3 forwarded args used; none padded.
#[test]
fn trampoline_arity3_passes_three_args() {
    assert_eq!(drive_invoke_iiii(4, 10, 20, 30), Ok(60));
}

/// Arity 4 callee: 3 forwarded args plus one padded zero.
#[test]
fn trampoline_arity4_pads_missing_fourth_with_zero() {
    assert_eq!(drive_invoke_iiii(5, 10, 20, 30), Ok(60));
}

/// Arity 5 callee: 3 forwarded args plus two padded zeros.
#[test]
fn trampoline_arity5_pads_two_missing_args_with_zero() {
    assert_eq!(drive_invoke_iiii(6, 10, 20, 30), Ok(60));
}

/// Null table slot: an error that names the slot.
#[test]
fn trampoline_null_slot_returns_error() {
    let result = drive_invoke_iiii(7, 1, 2, 3);
    assert!(result.is_err(), "null table slot must produce an error");
    assert_eq!(
        result.err().unwrap(),
        "invoke_dispatch: null or absent funcref at table[7] (params_len=4)"
    );
}

fn signature(name: &str) -> (usize, usize) {
    let sigs = trampolines();
    let sig = sigs.iter().find(|s| s.name == name).expect("registered");
    assert!(sig.params.iter().all(|t| matches!(t, ValType::I32)));
    (sig.params.len(), sig.results.len())
}

/// The trampolines are registered with their signatures.
#[test]
fn wire_invoke_trampolines_registers_all_variants() {
    assert_eq!(signature("invoke_v"), (1, 0));
    assert_eq!(signature("invoke_i"), (1, 1));
    assert_eq!(signature("invoke_iii"), (3, 1));
    assert_eq!(signature("invoke_viiii"), (5, 0));
}

/// The two trampolines of the interpreter itself are there too.
#[test]
fn wire_invoke_trampolines_includes_pyodide_trampoline_names() {
    assert_eq!(signature("_PyEM_TrampolineCall_JS"), (4, 1));
    assert_eq!(signature("_PyImport_InitFunc_TrampolineCall"), (1, 1));
}

#[test]
fn a_trampoline_is_typed_by_its_name() {
    let sig = invoke_signature("invoke_vij").expect("a trampoline");
    assert!(sig.results.is_empty());
    assert!(matches!(sig.params[0], ValType::I32));
    assert!(matches!(sig.params[1], ValType::I32));
    assert!(matches!(sig.params[2], ValType::I64));
    assert!(invoke_signature("memcpy").is_none());
}

#[test]
fn the_index_is_the_first_argument() {
    assert_eq!(invoke_index(&vec![Val::I32(12), Val::I32(4)]), Some(12));
    assert_eq!(invoke_index(&vec![Val::I32(-1)]), Some(u64::MAX));
    assert_eq!(invoke_index(&vec![Val::I64(1)]), None);
    assert_eq!(invoke_index(&Vec::new()), None);
}
