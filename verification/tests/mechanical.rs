//! Clock, entropy, console and the other small `env.*` functions.

use afterburner_wasi::civil_time::{
    civil_from_days, days_from_civil, read_tm_to_unix, write_tm, write_tzset,
};
use afterburner_wasi::emscripten_abi::VIRTUAL_EPOCH_NS;
use afterburner_wasi::emscripten_mechanical::{
    abort_note, console, fill_entropy, finish_getaddrinfo, finish_resize, get_progname,
    getaddrinfo_host, getentropy, heap_max_bytes, memcpy, minus_one_stubs, one_stubs, read_cstr,
    resize_heap, trap_stubs, zero_stubs, EntropySource, HeapStep, ThrowLog,
};
use afterburner_wasi::emscripten_runtime::{
    default_results, wasm_memory_config_from, MechCallLog, Val, ValType,
};

// ---- civil time -------------------------------------------------------------

/// `days_from_civil` matches known reference points.
#[test]
fn days_from_civil_known_points() {
    assert_eq!(days_from_civil(1970, 1, 1), 0, "epoch is day 0");
    assert_eq!(days_from_civil(1969, 12, 31), -1, "day before epoch");
    assert_eq!(days_from_civil(1970, 1, 2), 1);
    assert_eq!(days_from_civil(2000, 3, 1), 11017);
    assert_eq!(days_from_civil(2026, 1, 1), 20454);
}

/// Every time breaks down into fields within their ranges.
#[test]
fn tm_fields_keep_their_ranges() {
    let times = [i64::MIN, -86_401, -1, 0, 59, 86_399, 951_782_400, 978_220_799, i64::MAX];
    for t in times {
        let mut mem = vec![0xffu8; 64];
        write_tm(&mut mem, t, 16);
        let field = |i: usize| {
            let at = 16 + 4 * i;
            i32::from_le_bytes([mem[at], mem[at + 1], mem[at + 2], mem[at + 3]])
        };
        let limits = [(0, 59), (0, 59), (0, 23), (1, 31), (0, 11)];
        for (i, (low, high)) in limits.into_iter().enumerate() {
            assert!(low <= field(i) && field(i) <= high, "field {i} of {t}");
        }
        assert!(0 <= field(6) && field(6) <= 6, "weekday of {t}");
        assert!(0 <= field(7) && field(7) <= 365, "day of the year of {t}");
        assert_eq!(field(8), 0);
    }
    // The last second of the leap year 2000.
    let mut mem = vec![0u8; 36];
    write_tm(&mut mem, 978_307_199, 0);
    assert_eq!(&mem[12..16], &31i32.to_le_bytes());
    assert_eq!(&mem[28..32], &365i32.to_le_bytes());
}

/// `civil_from_days` is the exact inverse of `days_from_civil` across a wide
/// range, including leap days and pre-epoch dates.
#[test]
fn civil_from_days_round_trips() {
    for &(y, m, d) in &[
        (1970, 1, 1),
        (1969, 12, 31),
        (2000, 2, 29),
        (1900, 2, 28),
        (2024, 2, 29),
        (2026, 6, 25),
        (1, 1, 1),
        (9999, 12, 31),
    ] {
        let days: i64 = days_from_civil(y, m, d);
        assert_eq!(
            civil_from_days(days),
            (y, m, d),
            "round-trip {y}-{m}-{d} via day {days}"
        );
    }
}

/// The virtual epoch the clock returns breaks down to a sane, in-range UTC date.
#[test]
fn virtual_epoch_breaks_down_in_range() {
    let secs: i64 = (VIRTUAL_EPOCH_NS / 1_000_000_000) as i64;
    let days: i64 = secs.div_euclid(86400);
    let (year, month, day) = civil_from_days(days);
    assert!(
        (1..=9999).contains(&year),
        "year {year} must be a valid datetime year"
    );
    assert!((1..=12).contains(&month), "month {month} must be 1..=12");
    assert!((1..=31).contains(&day), "day {day} must be 1..=31");
    assert_eq!((year, month, day), (2025, 12, 31), "virtual epoch date");
}

#[test]
fn a_broken_down_time_is_put_together_again() {
    let mut mem = vec![0u8; 128];
    for t in [0i64, 951_782_400, 1_700_000_000, -86_400] {
        write_tm(&mut mem, t, 16);
        assert_eq!(read_tm_to_unix(&mem, 16), t);
    }
    write_tm(&mut mem, 951_782_400, 16);
    let field = |i: usize| i32::from_le_bytes(mem[16 + 4 * i..20 + 4 * i].try_into().unwrap());
    assert_eq!(
        (field(0), field(1), field(2), field(3), field(4), field(5)),
        (0, 0, 0, 29, 1, 100)
    );
    assert_eq!(field(6), 2, "a Tuesday");
    assert_eq!(field(7), 59, "day of the year");
}

#[test]
fn the_time_zone_is_utc() {
    let mut mem = vec![0xffu8; 64];
    write_tzset(&mut mem, 4, 8, 16, 24);
    assert_eq!(&mem[4..12], &[0u8; 8]);
    assert_eq!(&mem[16..20], b"UTC\0");
    assert_eq!(&mem[24..28], b"UTC\0");
    assert_eq!(&mem[0..4], &[0xff; 4]);
}

// ---- call log ---------------------------------------------------------------

/// Push two entries; `tail(2)` returns them in order.
#[test]
fn mech_call_log_push_tail() {
    let mut log = MechCallLog::new();
    log.push("foo", 1, 2);
    log.push("bar", 3, 4);
    let tail = log.tail(2);
    assert_eq!(tail.len(), 2);
    assert_eq!(tail[0].name, "foo");
    assert_eq!(tail[1].name, "bar");
}

/// After pushing > 64 entries the buffer stays at 64 and the tail returns the
/// most recently pushed name.
#[test]
fn tests_mech_call_log_ring_capacity() {
    const CAP: usize = 64;
    let mut log = MechCallLog::new();
    for i in 0..CAP + 10 {
        log.push("entry", i as i32, 0);
    }
    assert_eq!(log.len(), CAP);
    let tail = log.tail(1);
    assert_eq!(tail.len(), 1);
    assert_eq!(tail[0].arg0, (CAP + 9) as i32);
}

// ---- entropy ----------------------------------------------------------------

/// Two identical deterministic fills are byte-equal.
#[test]
fn getentropy_fill_is_deterministic_0xab() {
    let mut buf1 = vec![0u8; 8];
    let mut buf2 = vec![0u8; 8];
    assert_eq!(getentropy(&mut buf1, 0, 8, EntropySource::Deterministic), 0);
    assert_eq!(getentropy(&mut buf2, 0, 8, EntropySource::Deterministic), 0);
    assert_eq!(buf1, buf2, "same fill params must produce identical bytes");
    assert!(buf1.iter().all(|&b| b == 0xAB), "fill value must be 0xAB");
}

/// Deterministic mode fills the buffer with 0xAB exactly.
#[test]
fn getentropy_deterministic_mode_fills_0xab() {
    let mut mem = vec![0u8; 0x2000];
    let rc: i32 = getentropy(&mut mem, 0x1000, 8, EntropySource::Deterministic);
    assert_eq!(rc, 0, "getentropy must return 0 on success");
    let bytes = mem[0x1000..0x1008].to_vec();
    assert!(
        bytes.iter().all(|&b| b == 0xAB),
        "Deterministic mode must fill every byte with 0xAB; got {bytes:?}"
    );
    assert_eq!(mem[0x0fff], 0);
    assert_eq!(mem[0x1008], 0);
}

#[test]
fn getentropy_refuses_a_buffer_that_leaves_memory() {
    let mut mem = vec![1u8; 64];
    assert_eq!(getentropy(&mut mem, 0, -1, EntropySource::RealOs), -1);
    assert_eq!(getentropy(&mut mem, 60, 8, EntropySource::Deterministic), -1);
    assert_eq!(getentropy(&mut mem, 64, 0, EntropySource::RealOs), 0);
    assert!(mem.iter().all(|b| *b == 1));
}

/// Two calls in RealOs mode give distinct output with overwhelming probability.
#[test]
fn getentropy_real_os_produces_non_constant_output() {
    let mut mem = vec![0u8; 0x2000];
    let rc1: i32 = getentropy(&mut mem, 0x1000, 8, EntropySource::RealOs);
    let bytes1 = mem[0x1000..0x1008].to_vec();
    mem[0x1000..0x1008].fill(0x00);
    let rc2: i32 = getentropy(&mut mem, 0x1000, 8, EntropySource::RealOs);
    let bytes2 = mem[0x1000..0x1008].to_vec();
    assert_eq!(rc1, 0, "first getentropy (RealOs) must succeed");
    assert_eq!(rc2, 0, "second getentropy (RealOs) must succeed");
    assert_ne!(bytes1, vec![0u8; 8], "first fill must not be all zeros");
    assert_ne!(bytes2, vec![0u8; 8], "second fill must not be all zeros");
    assert_ne!(
        bytes1,
        vec![0xABu8; 8],
        "RealOs mode must not produce the deterministic 0xAB fill"
    );
    assert_ne!(
        bytes1, bytes2,
        "RealOs mode must produce distinct fills on independent calls"
    );
}

#[test]
fn entropy_is_what_the_source_gave() {
    let mut mem = vec![0u8; 16];
    let rc: i32 = fill_entropy(&mut mem, 4, 3, EntropySource::RealOs, Some(vec![7, 8, 9]));
    assert_eq!(rc, 0);
    assert_eq!(&mem[3..8], &[0, 7, 8, 9, 0]);
    let rc: i32 = fill_entropy(&mut mem, 4, 3, EntropySource::RealOs, None);
    assert!(rc < 0);
    let rc: i32 = fill_entropy(&mut mem, 15, 3, EntropySource::Deterministic, None);
    assert_ne!(rc, 0, "a buffer outside memory is refused");
}

// ---- stubs ------------------------------------------------------------------

/// `_Py_emscripten_runtime` returns 0.
#[test]
fn py_emscripten_runtime_returns_zero() {
    let stubs = zero_stubs();
    let sig = stubs
        .iter()
        .find(|s| s.name == "_Py_emscripten_runtime")
        .expect("_Py_emscripten_runtime");
    assert!(sig.params.is_empty());
    let results = default_results(&sig.results);
    assert_eq!(results.len(), 1);
    assert!(matches!(results[0], Val::I32(0)));
}

/// No import is answered by two stubs.
#[test]
fn stub_names_are_distinct() {
    let mut names: Vec<String> = Vec::new();
    for table in [zero_stubs(), one_stubs(), minus_one_stubs(), trap_stubs()] {
        for sig in table {
            names.push(sig.name);
        }
    }
    let count = names.len();
    assert!(count > 10);
    names.sort();
    names.dedup();
    assert_eq!(names.len(), count);
}

#[test]
fn stub_results_are_plain_numbers() {
    for sig in one_stubs() {
        assert_eq!(sig.results.len(), 1);
        assert!(matches!(sig.results[0], ValType::I32));
    }
}

// ---- memory -----------------------------------------------------------------

#[test]
fn a_c_string_ends_at_its_nul() {
    let mem = b"..text\0more".to_vec();
    assert_eq!(read_cstr(&mem, 2).as_deref(), Some("text"));
    assert_eq!(read_cstr(&mem, 6).as_deref(), Some(""));
    assert_eq!(read_cstr(&mem, 7), None);
    let odd = b"\xff\0".to_vec();
    assert_eq!(read_cstr(&odd, 0).as_deref(), Some("\u{fffd}"));
}

#[test]
fn memcpy_copies_within_memory() {
    let mut mem = b"abcdef".to_vec();
    memcpy(&mut mem, 3, 0, 3);
    assert_eq!(mem, b"abcabc");
    memcpy(&mut mem, 4, 0, 3);
    assert_eq!(mem, b"abcabc", "a copy that leaves memory is dropped");
}

#[test]
fn the_heap_grows_by_whole_pages() {
    assert!(matches!(resize_heap(65_536, 65_536), HeapStep::Enough));
    assert!(matches!(resize_heap(65_536, 65_537), HeapStep::Grow(1)));
    assert!(matches!(resize_heap(65_536, 65_536 * 4), HeapStep::Grow(3)));
    assert_eq!(finish_resize(true), 1);
    assert_eq!(finish_resize(false), 0);
}

#[test]
fn the_largest_heap_stays_below_four_gib() {
    let small = wasm_memory_config_from(65_536, 131_072, 1);
    assert_eq!(heap_max_bytes(&small), 131_072);
    let full = wasm_memory_config_from(65_536, 4_294_967_296, 1);
    assert_eq!(heap_max_bytes(&full) as u32, 4_294_901_760);
    assert_eq!(heap_max_bytes(&Err("bad".to_owned())) as u32, 4_294_901_760);
}

#[test]
fn console_text_is_a_line() {
    let mem = b"hey\0".to_vec();
    let mut out: Vec<u8> = Vec::new();
    console(&mut out, &mem, 0, true);
    console(&mut out, &mem, 0, false);
    abort_note(&mut out, true);
    abort_note(&mut out, false);
    assert_eq!(
        String::from_utf8(out).unwrap(),
        "[console] hey\nhey\n[_abort_js reached]\n[abort reached]\n"
    );
}

#[test]
fn the_program_is_named() {
    let mut mem = vec![0xffu8; 16];
    get_progname(&mut mem, 2, 8);
    assert_eq!(&mem[2..10], b"pyodide\0");
    let mut mem = vec![0xffu8; 16];
    get_progname(&mut mem, 2, 3);
    assert_eq!(&mem[1..6], b"\xffpyo\xff");
}

#[test]
fn thrown_exceptions_are_counted() {
    let mut log = ThrowLog::new();
    assert_eq!(log.matching_catch(), 0);
    log.record(0x40, "St9bad_alloc".to_owned());
    assert_eq!(log.matching_catch(), 0x40);
    assert_eq!(log.total(), 1);
    assert_eq!(log.last().unwrap().1, "St9bad_alloc");
}

// ---- getaddrinfo ------------------------------------------------------------

#[test]
fn a_found_host_is_written_out() {
    let mut mem = vec![0u8; 4096];
    mem[16..26].copy_from_slice(b"localhost\0");
    assert_eq!(getaddrinfo_host(&mem, 16, true), Ok("localhost".to_owned()));
    assert_eq!(getaddrinfo_host(&mem, 16, false), Err(8));
    assert_eq!(getaddrinfo_host(&mem, 5000, true), Err(8));
    let rc: i32 = finish_getaddrinfo(&mut mem, 64, Some("127.0.0.1".to_owned()));
    assert_eq!(rc, 0);
    let at = u32::from_le_bytes(mem[64..68].try_into().unwrap()) as usize;
    assert_eq!(at, 4096 - 512);
    assert_eq!(&mem[at + 32..at + 34], &2u16.to_le_bytes());
    assert_eq!(&mem[at + 36..at + 40], &[127, 0, 0, 1]);
    assert_eq!(finish_getaddrinfo(&mut mem, 64, None), 8);
    assert_eq!(finish_getaddrinfo(&mut mem, 64, Some("::1".to_owned())), 8);
    assert_eq!(finish_getaddrinfo(&mut mem, 64, Some("1.2.3".to_owned())), 8);
    assert_eq!(finish_getaddrinfo(&mut mem, 64, Some("1.2.3.4.5".to_owned())), 8);
    // Pieces that are no octets do not count.
    assert_eq!(finish_getaddrinfo(&mut mem, 64, Some("1.2.x.3.4.".to_owned())), 0);
    assert_eq!(&mem[at + 36..at + 40], &[1, 2, 3, 4]);
}
