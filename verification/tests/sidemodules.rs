//! Side modules: placement, symbol resolution, `dlopen` and `dlsym`.

use afterburner_wasi::emscripten_fs::InMemFs;
use afterburner_wasi::emscripten_sidemodule::{
    allocation_size, dlopen, dlsym, export_slot_source, finish_dlopen, finish_dlsym, first_mem_info, got_func_sources,
    got_kind, got_mem_address, import_source, next_bases, parse_dylink0_mem_info, place_block,
    reserved_slots, DlopenStep, DlsymStep, Dylink0MemInfo, FuncSource, GotKind, ImportSource,
    SideModuleHandle, SideModuleRegistry,
};

/// A wasm module with a `dylink.0` section whose memory information is 24 bytes
/// aligned to 2^3 and 5 table slots aligned to 2^0.
fn module() -> Vec<u8> {
    let mut out = b"\0asm\x01\0\0\0".to_vec();
    let name = b"dylink.0";
    let payload = [1u8, 4, 24, 3, 5, 0];
    out.push(0);
    out.push((1 + name.len() + payload.len()) as u8);
    out.push(name.len() as u8);
    out.extend_from_slice(name);
    out.extend_from_slice(&payload);
    out
}

#[test]
fn requirements_are_read_from_the_section() {
    let info = parse_dylink0_mem_info(&module());
    assert_eq!((info.mem_size, info.mem_align, info.table_size), (24, 8, 5));
    let none = parse_dylink0_mem_info(b"\0asm\x01\0\0\0");
    let default = Dylink0MemInfo::default();
    assert_eq!(
        (none.mem_size, none.mem_align, none.table_size),
        (default.mem_size, default.mem_align, default.table_size)
    );
}

#[test]
fn the_first_declaration_counts() {
    let fields = |i: Dylink0MemInfo| (i.mem_size, i.mem_align, i.table_size);
    let parts = vec![Some(vec![]), Some(vec![None, Some((1, 2, 3)), Some((9, 9, 9))])];
    assert_eq!(fields(first_mem_info(&parts)), (1, 4, 3));
    let cut = vec![None, Some(vec![Some((1, 2, 3))])];
    assert_eq!(fields(first_mem_info(&cut)), fields(Dylink0MemInfo::default()));
    let wide = vec![Some(vec![Some((1, 40, 3))])];
    assert_eq!(fields(first_mem_info(&wide)), (1, 1, 3));
}

#[test]
fn a_block_is_aligned_inside_its_allocation() {
    assert_eq!(allocation_size(24, 8), 31);
    assert_eq!(place_block(1001, 24, 8, "/x.so"), Ok(1008));
    assert_eq!(place_block(1001, 24, 1, "/x.so"), Ok(1001));
    assert_eq!(
        place_block(0, 24, 8, "/x.so"),
        Err("malloc(31) for /x.so: returned NULL".to_owned())
    );
    let info = Dylink0MemInfo { mem_size: 24, mem_align: 8, table_size: 0 };
    assert_eq!(reserved_slots(&info), 1);
    // Slot 40 was reserved and two exports were appended behind it.
    assert_eq!(next_bases(1008, &info, 43), (1032, 43));
    assert_eq!(next_bases(u32::MAX - 3, &info, 43), (u32::MAX, 43));
}

#[test]
fn imports_prefer_the_main_module() {
    assert!(matches!(import_source(true, true, &vec![true], true), ImportSource::Bound));
    assert!(matches!(import_source(false, true, &vec![true], true), ImportSource::Main));
    assert!(matches!(
        import_source(false, false, &vec![false, true, true], true),
        ImportSource::Side(1)
    ));
    assert!(matches!(import_source(false, false, &vec![false], true), ImportSource::Own));
    assert!(matches!(import_source(false, false, &vec![], false), ImportSource::Stub));
}

#[test]
fn offset_table_entries_are_filled() {
    assert_eq!(got_kind("GOT.func"), Some(GotKind::Func));
    assert_eq!(got_kind("GOT.mem"), Some(GotKind::Mem));
    assert_eq!(got_kind("env"), None);
    assert_eq!(got_mem_address(0, Some(16), 1000), Some(1016));
    assert_eq!(got_mem_address(5, Some(16), 1000), None);
    assert_eq!(got_mem_address(0, None, 1000), None);
    let sources = got_func_sources(Some(9), true, &vec![true], true);
    assert!(matches!(sources[0], FuncSource::Slot(9)));
    assert_eq!(export_slot_source(Some(9), true), Some(FuncSource::Slot(9)));
    assert_eq!(export_slot_source(None, true), Some(FuncSource::Own));
    assert_eq!(export_slot_source(None, false), None);
}

#[test]
fn a_library_is_loaded_once_and_its_symbols_keep_their_slots() {
    let mut reg = SideModuleRegistry::new();
    let mut fs = InMemFs::new();
    fs.insert_file("/lib/m.so", module());
    let mut mem = vec![0u8; 4096];
    // The name of a library stands at offset 36 of its handle.
    let handle: i32 = 64;
    mem[100..110].copy_from_slice(b"/lib/m.so\0");
    mem[200..202].copy_from_slice(b"f\0");
    match dlopen(&mut reg, &fs, &mem, handle) {
        DlopenStep::Load { name, bytes } => {
            assert_eq!(name, "/lib/m.so");
            assert_eq!(bytes, module());
            let loaded = SideModuleHandle { instance: 3, func_table_slots: Vec::new() };
            assert_eq!(finish_dlopen(&mut reg, handle, name, Some(loaded)), handle);
        }
        DlopenStep::Return(v) => panic!("returned {v}"),
    }
    match dlopen(&mut reg, &fs, &mem, handle) {
        DlopenStep::Return(v) => assert_eq!(v, handle, "already loaded"),
        DlopenStep::Load { .. } => panic!("loaded twice"),
    }
    match dlsym(&reg, &mut mem, handle, 200, 300, true) {
        DlsymStep::Insert { instance, name } => {
            assert_eq!((instance, name.as_str()), (3, "f"));
            assert_eq!(finish_dlsym(&mut reg, &mut mem, handle, name, 300, Some(77)), 77);
        }
        DlsymStep::Return(v) => panic!("returned {v}"),
    }
    match dlsym(&reg, &mut mem, handle, 200, 300, true) {
        DlsymStep::Return(v) => assert_eq!(v, 77, "the slot is kept"),
        DlsymStep::Insert { .. } => panic!("inserted twice"),
    }
    assert_eq!(reg.all_instances(), vec![3]);
}
