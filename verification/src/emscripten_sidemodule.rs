//! Side modules: shared libraries of a guest, which live in its memory and its
//! function table.
//!
//! The embedding compiles and instantiates a side module. This module says where
//! it is placed, what its imports and its global offset table resolve to, and
//! answers `dlopen` and `dlsym`.

use std::collections::HashMap;

use vstd::prelude::*;
use wasmparser::{Dylink0Subsection, KnownCustom, Parser, Payload};

use crate::bytes::{word_at, write_u32};
use crate::emscripten_fs::{FsView, InMemFs, NodeView};
use crate::emscripten_mechanical::{cstr_at, law_nul_is_first, read_cstr};
use crate::emscripten_pthread::{law_word_is_told, word_told};
use crate::text::{
    chars_of, concat, decimal, ends_with, has_suffix, push_decimal, same_text, utf8_lossy,
};

verus! {

broadcast use vstd::std_specs::hash::group_hash_axioms;

/// Memory requirements declared in a side module's `dylink.0` custom section.
#[derive(Debug, Clone, Copy, PartialEq, Eq, Structural)]
pub struct Dylink0MemInfo {
    /// Bytes the loader must reserve starting at `__memory_base`.
    pub mem_size: u32,
    /// Required alignment of the region, in bytes.
    pub mem_align: u32,
    /// Number of table slots the module needs starting at `__table_base`.
    pub table_size: u32,
}

impl Default for Dylink0MemInfo {
    /// What a module gets that declares nothing: 1 MiB and 512 slots.
    fn default() -> (r: Self)
        ensures
            r == (Dylink0MemInfo { mem_size: 1_048_576, mem_align: 16, table_size: 512 }),
    {
        Dylink0MemInfo { mem_size: 1_048_576, mem_align: 16, table_size: 512 }
    }
}

/// What reading a module gives, part by part: `None` for a part that is malformed,
/// otherwise the subsections of the part if it is a `dylink.0` section (any other
/// part has none). Each subsection comes with what it declares if it is a readable
/// `MEM_INFO`: the memory size, the logarithm of the alignment, and the table size.
pub uninterp spec fn module_parts(wasm: Seq<u8>) -> Seq<Option<Seq<Option<(u32, u32, u32)>>>>;

/// The parts of a module as plain values.
pub open spec fn part_views(
    parts: Seq<Option<Vec<Option<(u32, u32, u32)>>>>,
) -> Seq<Option<Seq<Option<(u32, u32, u32)>>>> {
    Seq::new(
        parts.len(),
        |i: int|
            match parts[i] {
                Some(subs) => Some(subs@),
                None => None,
            },
    )
}

/// `wasmparser`'s `Parser::parse_all`, with `CustomSectionReader::as_known` and the
/// reader of `dylink.0` sections on each part. What the parts of given bytes are is
/// only named.
#[verifier::external_body]
fn read_parts(wasm: &[u8]) -> (r: Vec<Option<Vec<Option<(u32, u32, u32)>>>>)
    ensures
        part_views(r@) == module_parts(wasm@),
{
    let declared = |sub| match sub {
        Ok(Dylink0Subsection::MemInfo(i)) => Some((i.memory_size, i.memory_alignment, i.table_size)),
        _ => None,
    };
    let subsections = |part| match part {
        Payload::CustomSection(section) => match section.as_known() {
            KnownCustom::Dylink0(reader) => reader.into_iter().map(declared).collect(),
            _ => Vec::new(),
        },
        _ => Vec::new(),
    };
    Parser::new(0).parse_all(wasm).map(|part| part.ok().map(subsections)).collect()
}

/// The first declaration among the subsections of one part.
pub open spec fn declared_in(subs: Seq<Option<(u32, u32, u32)>>) -> Option<(u32, u32, u32)>
    decreases subs.len(),
{
    if subs.len() == 0 {
        None
    } else if subs[0] is Some {
        subs[0]
    } else {
        declared_in(subs.skip(1))
    }
}

/// The first declaration in a module, as far as it is well-formed.
pub open spec fn first_declared(
    parts: Seq<Option<Seq<Option<(u32, u32, u32)>>>>,
) -> Option<(u32, u32, u32)>
    decreases parts.len(),
{
    if parts.len() == 0 {
        None
    } else {
        match parts[0] {
            None => None,
            Some(subs) => if declared_in(subs) is Some {
                declared_in(subs)
            } else {
                first_declared(parts.skip(1))
            },
        }
    }
}

/// The requirements that a declaration stands for: the alignment is expanded from
/// its logarithm (1 if it is too large to be one). Without one they are the
/// default.
pub open spec fn mem_info_of(declared: Option<(u32, u32, u32)>) -> Dylink0MemInfo {
    match declared {
        None => Dylink0MemInfo { mem_size: 1_048_576, mem_align: 16, table_size: 512 },
        Some((mem_size, log, table_size)) => Dylink0MemInfo {
            mem_size,
            mem_align: if log < 32 {
                1u32 << log
            } else {
                1
            },
            table_size,
        },
    }
}

/// What a module declares is taken as it stands, but for the alignment: logarithm 0
/// is 1 byte, and each step of the logarithm doubles it as long as 32 bits hold it.
/// A module that declares nothing gets a mebibyte, aligned to 16, and 512 slots.
pub proof fn law_declaration_is_expanded(size: u32, log: u32, slots: u32)
    ensures
        ({
            let i = mem_info_of(Some((size, log, slots)));
            &&& i.mem_size == size
            &&& i.table_size == slots
            &&& log == 0 || log >= 32 ==> i.mem_align == 1
            &&& log < 31 ==> mem_info_of(Some((size, (log + 1) as u32, slots))).mem_align == 2
                * i.mem_align
        }),
        mem_info_of(None).mem_size == 1024 * 1024,
        mem_info_of(None).mem_align == 16,
        mem_info_of(None).table_size == 512,
{
    assert(1u32 << 0u32 == 1u32) by (bit_vector);
    if log < 31 {
        let next = (log + 1) as u32;
        assert((1u32 << next) == 2 * (1u32 << log)) by (bit_vector)
            requires
                log < 31,
                next == log + 1,
        ;
    }
}

/// The declaration of a module is the first one in it, and one behind a malformed
/// part does not count.
pub proof fn law_first_declaration_counts(
    parts: Seq<Option<Seq<Option<(u32, u32, u32)>>>>,
    i: int,
    j: int,
)
    requires
        0 <= i < parts.len(),
        parts[i] is Some,
        0 <= j < parts[i]->0.len(),
        parts[i]->0[j] is Some,
        forall|k: int| 0 <= k < j ==> (#[trigger] parts[i]->0[k]) is None,
        forall|k: int| 0 <= k < i ==> (#[trigger] parts[k]) is Some,
        forall|k: int, l: int|
            0 <= k < i && 0 <= l < parts[k]->0.len() ==> (#[trigger] parts[k]->0[l]) is None,
    ensures
        first_declared(parts) == parts[i]->0[j],
    decreases i,
{
    if i == 0 {
        lemma_first_sub(parts[0]->0, j);
    } else {
        assert(parts[0] is Some);
        lemma_no_sub(parts[0]->0);
        let rest = parts.skip(1);
        assert(rest[i - 1] == parts[i]);
        assert forall|k: int| 0 <= k < i - 1 implies (#[trigger] rest[k]) is Some by {
            assert(parts[k + 1] is Some);
        }
        assert forall|k: int, l: int| 0 <= k < i - 1 && 0 <= l < rest[k]->0.len() implies (
        #[trigger] rest[k]->0[l]) is None by {
            assert(parts[k + 1]->0[l] is None);
        }
        law_first_declaration_counts(rest, i - 1, j);
    }
}

/// A module declares nothing if no part before its end, or before the first malformed
/// part, holds a declaration.
pub proof fn law_no_declaration(parts: Seq<Option<Seq<Option<(u32, u32, u32)>>>>, end: int)
    requires
        0 <= end <= parts.len(),
        end < parts.len() ==> parts[end] is None,
        forall|k: int| 0 <= k < end ==> (#[trigger] parts[k]) is Some,
        forall|k: int, l: int|
            0 <= k < end && 0 <= l < parts[k]->0.len() ==> (#[trigger] parts[k]->0[l]) is None,
    ensures
        first_declared(parts) is None,
    decreases end,
{
    if end > 0 {
        assert(parts[0] is Some);
        lemma_no_sub(parts[0]->0);
        let rest = parts.skip(1);
        assert forall|k: int| 0 <= k < end - 1 implies (#[trigger] rest[k]) is Some by {
            assert(parts[k + 1] is Some);
        }
        assert forall|k: int, l: int| 0 <= k < end - 1 && 0 <= l < rest[k]->0.len() implies (
        #[trigger] rest[k]->0[l]) is None by {
            assert(parts[k + 1]->0[l] is None);
        }
        law_no_declaration(rest, end - 1);
    }
}

proof fn lemma_first_sub(subs: Seq<Option<(u32, u32, u32)>>, j: int)
    requires
        0 <= j < subs.len(),
        subs[j] is Some,
        forall|k: int| 0 <= k < j ==> (#[trigger] subs[k]) is None,
    ensures
        declared_in(subs) == subs[j],
    decreases j,
{
    if j > 0 {
        assert(subs[0] is None);
        assert forall|k: int| 0 <= k < j - 1 implies (#[trigger] subs.skip(1)[k]) is None by {
            assert(subs[k + 1] is None);
        }
        lemma_first_sub(subs.skip(1), j - 1);
    }
}

proof fn lemma_no_sub(subs: Seq<Option<(u32, u32, u32)>>)
    requires
        forall|k: int| 0 <= k < subs.len() ==> (#[trigger] subs[k]) is None,
    ensures
        declared_in(subs) is None,
    decreases subs.len(),
{
    if subs.len() > 0 {
        assert(subs[0] is None);
        assert forall|k: int| 0 <= k < subs.len() - 1 implies (#[trigger] subs.skip(1)[k]) is None by {
            assert(subs[k + 1] is None);
        }
        lemma_no_sub(subs.skip(1));
    }
}

/// Find the first declaration among the subsections of one part.
fn find_declared(subs: &Vec<Option<(u32, u32, u32)>>) -> (r: Option<(u32, u32, u32)>)
    ensures
        r == declared_in(subs@),
{
    let n: usize = subs.len();
    let mut i: usize = 0;
    assert(subs@.skip(0) =~= subs@);
    while i < n
        invariant
            i <= n,
            n == subs@.len(),
            declared_in(subs@) == declared_in(subs@.skip(i as int)),
        decreases n - i,
    {
        if subs[i].is_some() {
            return subs[i];
        }
        assert(subs@.skip(i as int).skip(1) =~= subs@.skip(i + 1));
        i = i + 1;
    }
    None
}

/// The requirements of a module with these parts.
pub fn first_mem_info(parts: &Vec<Option<Vec<Option<(u32, u32, u32)>>>>) -> (r: Dylink0MemInfo)
    ensures
        r == mem_info_of(first_declared(part_views(parts@))),
{
    let n: usize = parts.len();
    let ghost all = part_views(parts@);
    let mut i: usize = 0;
    assert(all.skip(0) =~= all);
    while i < n
        invariant
            i <= n,
            n == parts@.len(),
            all == part_views(parts@),
            first_declared(all) == first_declared(all.skip(i as int)),
        decreases n - i,
    {
        match &parts[i] {
            None => {
                return Dylink0MemInfo::default();
            },
            Some(subs) => {
                assert(all.skip(i as int)[0] == Some(subs@));
                match find_declared(subs) {
                    Some((mem_size, log, table_size)) => {
                        let mem_align: u32 = if log < 32 {
                            1u32 << log
                        } else {
                            1
                        };
                        return Dylink0MemInfo { mem_size, mem_align, table_size };
                    },
                    None => {},
                }
            },
        }
        assert(all.skip(i as int).skip(1) =~= all.skip(i + 1));
        i = i + 1;
    }
    Dylink0MemInfo::default()
}

/// Parse the `dylink.0` custom section of a side module and return its memory
/// requirements. Falls back to a 1 MiB / 512-slot default if the section is
/// missing or malformed.
pub fn parse_dylink0_mem_info(wasm_bytes: &[u8]) -> (r: Dylink0MemInfo)
    ensures
        r == mem_info_of(first_declared(module_parts(wasm_bytes@))),
{
    first_mem_info(&read_parts(wasm_bytes))
}

/// The sum, held within the range of `u32`.
pub open spec fn sat(x: int) -> u32 {
    if x > u32::MAX {
        u32::MAX
    } else {
        x as u32
    }
}

fn sat_add(a: u32, b: u32) -> (r: u32)
    ensures
        r == sat(a + b),
{
    if a > u32::MAX - b {
        u32::MAX
    } else {
        a + b
    }
}

/// How much to allocate for `size` bytes that are to be aligned to `align`.
pub open spec fn padded(size: u32, align: u32) -> u32 {
    sat(
        size + if align == 0 {
            0int
        } else {
            align - 1
        },
    )
}

/// How much to allocate for `size` bytes that are to be aligned to `align`.
pub fn allocation_size(size: u32, align: u32) -> (r: u32)
    ensures
        r == padded(size, align),
{
    if align == 0 {
        size
    } else {
        sat_add(size, align - 1)
    }
}

/// `raw` rounded up to a multiple of `align`, a power of two.
pub open spec fn aligned(raw: u32, align: u32) -> u32 {
    if align <= 1 {
        raw
    } else {
        sat(raw + align - 1) & !((align - 1) as u32)
    }
}

/// What becomes of the block that the guest's `malloc` gave: the aligned address
/// in it, or the error that there was none.
pub fn place_block(raw: u32, size: u32, align: u32, path: &str) -> (r: Result<u32, String>)
    ensures
        if raw == 0 {
            r is Err && r->Err_0@ == "malloc("@ + decimal(padded(size, align) as nat) + ") for "@
                + path@ + ": returned NULL"@
        } else {
            r == Ok::<u32, String>(aligned(raw, align))
        },
{
    if raw == 0 {
        let mut s = "malloc(".to_owned();
        push_decimal(&mut s, allocation_size(size, align) as u64);
        s.append(") for ");
        s.append(path);
        s.append(": returned NULL");
        return Err(s);
    }
    if align <= 1 {
        return Ok(raw);
    }
    let mask: u32 = align - 1;
    Ok(sat_add(raw, mask) & !mask)
}

/// A module lies inside the block that was allocated for it, at an address of the
/// alignment that it asked for. The block must not reach beyond the address
/// space.
pub proof fn law_block_fits(raw: u32, size: u32, log: u32)
    requires
        log < 32,
        raw + size + (1u32 << log) - 1 <= u32::MAX,
    ensures
        ({
            let align = 1u32 << log;
            let at = aligned(raw, align);
            &&& raw <= at < raw + align
            &&& at + size <= raw + padded(size, align)
            &&& padded(size, align) == size + align - 1
            &&& at as int % align as int == 0
        }),
{
    let align = 1u32 << log;
    assert(align >= 1) by (bit_vector)
        requires
            log < 32,
            align == 1u32 << log,
    ;
    if align > 1 {
        let mask = (align - 1) as u32;
        let top = (raw + mask) as u32;
        let at = top & !mask;
        assert(at <= top && top - at <= mask && at % align == 0) by (bit_vector)
            requires
                log < 32,
                align == 1u32 << log,
                mask == (align - 1) as u32,
                at == top & !mask,
        ;
        assert(at as int % align as int == 0);
    }
}

/// Which side of an import name stands for what.
#[derive(Debug, Clone, Copy, PartialEq, Eq, Structural)]
pub enum GotKind {
    /// A slot of the function table.
    Func,
    /// An address in memory.
    Mem,
}

/// Whether an import from `module` is an entry of the global offset table.
pub fn got_kind(module: &str) -> (r: Option<GotKind>)
    ensures
        r == if module@ == "GOT.func"@ {
            Some(GotKind::Func)
        } else if module@ == "GOT.mem"@ {
            Some(GotKind::Mem)
        } else {
            None
        },
{
    if same_text(module, "GOT.func") {
        Some(GotKind::Func)
    } else if same_text(module, "GOT.mem") {
        Some(GotKind::Mem)
    } else {
        None
    }
}

/// What a function import of a side module is bound to.
#[derive(Debug, Clone, Copy, PartialEq, Eq, Structural)]
pub enum ImportSource {
    /// It is bound already.
    Bound,
    /// The main module exports it.
    Main,
    /// The loaded side module with this index exports it.
    Side(usize),
    /// The module exports it itself: the call is forwarded once it exists.
    Own,
    /// Nobody exports it: it returns the defaults of its results.
    Stub,
}

/// The first index that is marked, from `i` on.
pub open spec fn first_marked(s: Seq<bool>, i: int) -> Option<int>
    decreases s.len() - i,
{
    if i >= s.len() {
        None
    } else if s[i] {
        Some(i)
    } else {
        first_marked(s, i + 1)
    }
}

/// The first marked index, from `i` on, is marked, and none before it is.
pub proof fn law_first_marked(s: Seq<bool>, i: int)
    requires
        0 <= i,
    ensures
        match first_marked(s, i) {
            Some(k) => i <= k < s.len() && s[k] && forall|j: int| i <= j < k ==> !(#[trigger] s[j]),
            None => forall|j: int| i <= j < s.len() ==> !(#[trigger] s[j]),
        },
    decreases s.len() - i,
{
    if i < s.len() && !s[i] {
        law_first_marked(s, i + 1);
    }
}

fn find_marked(s: &Vec<bool>) -> (r: Option<usize>)
    ensures
        match first_marked(s@, 0) {
            Some(i) => r is Some && r->0 == i && i < s@.len(),
            None => r is None,
        },
{
    let n: usize = s.len();
    let mut i: usize = 0;
    while i < n
        invariant
            i <= n,
            n == s@.len(),
            first_marked(s@, 0) == first_marked(s@, i as int),
        decreases n - i,
    {
        if s[i] {
            return Some(i);
        }
        i = i + 1;
    }
    None
}

/// What a function import is bound to.
pub open spec fn bound_to(bound: bool, in_main: bool, in_sides: Seq<bool>, own: bool) -> ImportSource {
    if bound {
        ImportSource::Bound
    } else if in_main {
        ImportSource::Main
    } else {
        match first_marked(in_sides, 0) {
            Some(i) => ImportSource::Side(i as usize),
            None => if own {
                ImportSource::Own
            } else {
                ImportSource::Stub
            },
        }
    }
}

/// An import that is bound stays so. Any other one is bound to the main module if that
/// exports it; else to the first side module that does; else to the module itself; and to
/// nothing only if nobody exports it.
pub proof fn law_exporters_come_in_order(
    bound: bool,
    in_main: bool,
    in_sides: Seq<bool>,
    own: bool,
    i: int,
)
    requires
        in_sides.len() <= usize::MAX,
        0 <= i <= in_sides.len(),
        forall|j: int| 0 <= j < i ==> !(#[trigger] in_sides[j]),
    ensures
        ({
            let r = bound_to(bound, in_main, in_sides, own);
            &&& r == ImportSource::Bound <==> bound
            &&& r == ImportSource::Main <==> !bound && in_main
            &&& !bound && !in_main && i < in_sides.len() && in_sides[i] ==> (
            r matches ImportSource::Side(k) && k == i)
            &&& !bound && !in_main && i == in_sides.len() && own ==> r == ImportSource::Own
            &&& !bound && !in_main && i == in_sides.len() && !own ==> r == ImportSource::Stub
        }),
{
    law_first_marked(in_sides, 0);
}

/// What a function import is bound to: the main module comes before the loaded
/// side modules, in the order of their loading, and those before the module
/// itself.
pub fn import_source(bound: bool, in_main: bool, in_sides: &Vec<bool>, own: bool) -> (r:
    ImportSource)
    ensures
        r == bound_to(bound, in_main, in_sides@, own),
{
    if bound {
        return ImportSource::Bound;
    }
    if in_main {
        return ImportSource::Main;
    }
    match find_marked(in_sides) {
        Some(i) => ImportSource::Side(i),
        None => if own {
            ImportSource::Own
        } else {
            ImportSource::Stub
        },
    }
}

/// What a data entry of the global offset table is set to, if anything.
pub open spec fn got_address(current: i32, own_offset: Option<u32>, memory_base: u32) -> Option<i32> {
    match own_offset {
        Some(off) if current == 0 => Some(sat(memory_base + off) as i32),
        _ => None,
    }
}

/// An entry that has an address keeps it, and one for a symbol that the module does not
/// export stays 0. Any other one gets the address at which the symbol lies: its offset
/// behind the memory base of the module.
pub proof fn law_symbol_lies_behind_base(current: i32, offset: u32, memory_base: u32)
    ensures
        got_address(current, None, memory_base) is None,
        current != 0 ==> got_address(current, Some(offset), memory_base) is None,
        current == 0 ==> got_address(current, Some(offset), memory_base) is Some,
        current == 0 && memory_base + offset <= u32::MAX ==> got_address(
            current,
            Some(offset),
            memory_base,
        )->0 as u32 - memory_base == offset,
{
    let at = sat(memory_base + offset);
    assert(at as i32 as u32 == at) by (bit_vector);
}

/// What a data entry of the global offset table is set to once the module
/// exists: an entry that is still 0 gets the address of the symbol that the
/// module itself exports, which lies at an offset from its memory base. `None`
/// leaves the entry as it is.
pub fn got_mem_address(current: i32, own_offset: Option<u32>, memory_base: u32) -> (r: Option<i32>)
    ensures
        r == got_address(current, own_offset, memory_base),
{
    if current != 0 {
        return None;
    }
    match own_offset {
        Some(off) => Some(sat_add(memory_base, off) as i32),
        None => None,
    }
}

/// Where the function of an entry of the global offset table comes from.
#[derive(Debug, Clone, Copy, PartialEq, Eq, Structural)]
pub enum FuncSource {
    /// It is in the table already, at this slot.
    Slot(u32),
    /// The module exports it; it takes a new slot.
    Own,
    /// The loaded side module with this index exports it; it takes a new slot.
    Side(usize),
    /// The main module exports it; it takes a new slot.
    Main,
}

/// The places from which a function entry of the global offset table is filled,
/// to be tried in this order; if none works the entry stays 0. A function that
/// the module's element segment placed is taken from there.
pub open spec fn func_sources(
    slot: Option<u32>,
    own: bool,
    side: Option<int>,
    in_main: bool,
) -> Seq<FuncSource> {
    match slot {
        Some(n) => seq![FuncSource::Slot(n)],
        None => {
            let a = if own {
                seq![FuncSource::Own]
            } else {
                Seq::empty()
            };
            let b = match side {
                Some(i) => seq![FuncSource::Side(i as usize)],
                None => Seq::empty(),
            };
            let c = if in_main {
                seq![FuncSource::Main]
            } else {
                Seq::empty()
            };
            a + b + c
        },
    }
}

/// A function that the element segment placed is taken from its slot and from nowhere
/// else. Any other is taken from the module itself if that exports it; then from the
/// first side module that does; then from the main module. No place is tried twice.
pub proof fn law_func_sources(slot: Option<u32>, own: bool, side: Option<int>, in_main: bool)
    ensures
        ({
            let s = func_sources(slot, own, side, in_main);
            let n = |b: bool|
                if b {
                    1int
                } else {
                    0int
                };
            &&& slot matches Some(k) ==> s.len() == 1 && s[0] == FuncSource::Slot(k)
            &&& slot is None ==> {
                &&& s.len() == n(own) + n(side is Some) + n(in_main)
                &&& own ==> s[0] == FuncSource::Own
                &&& side is Some ==> s[n(own)] == FuncSource::Side(side->0 as usize)
                &&& in_main ==> s.last() == FuncSource::Main
            }
        }),
{
}

/// The places from which a function entry of the global offset table is filled.
pub fn got_func_sources(slot: Option<u32>, own: bool, in_sides: &Vec<bool>, in_main: bool) -> (r:
    Vec<FuncSource>)
    ensures
        r@ == func_sources(slot, own, first_marked(in_sides@, 0), in_main),
{
    let mut out: Vec<FuncSource> = Vec::new();
    match slot {
        Some(n) => {
            out.push(FuncSource::Slot(n));
        },
        None => {
            if own {
                out.push(FuncSource::Own);
            }
            match find_marked(in_sides) {
                Some(i) => out.push(FuncSource::Side(i)),
                None => {},
            }
            if in_main {
                out.push(FuncSource::Main);
            }
        },
    }
    assert(out@ =~= func_sources(slot, own, first_marked(in_sides@, 0), in_main));
    out
}

/// How many table slots are reserved for a module: at least one.
pub fn reserved_slots(info: &Dylink0MemInfo) -> (r: u32)
    ensures
        r == if info.table_size == 0 {
            1u32
        } else {
            info.table_size
        },
{
    if info.table_size == 0 {
        1
    } else {
        info.table_size
    }
}

/// Where the slot comes from through which an exported function is found by name:
/// the one that the module's element segment placed it at, else a new one for what
/// the module exports. `None` if there is no such function.
pub fn export_slot_source(placed: Option<u32>, exported: bool) -> (r: Option<FuncSource>)
    ensures
        r == match placed {
            Some(n) => Some(FuncSource::Slot(n)),
            None => if exported {
                Some(FuncSource::Own)
            } else {
                None
            },
        },
{
    match placed {
        Some(n) => Some(FuncSource::Slot(n)),
        None => if exported {
            Some(FuncSource::Own)
        } else {
            None
        },
    }
}

/// The memory base and the table base behind a module.
pub open spec fn bases_after(memory_base: u32, info: Dylink0MemInfo, table_size_now: u32) -> (
    u32,
    u32,
) {
    (sat(memory_base + info.mem_size), table_size_now)
}

/// The next module begins where the memory of this one ends, as long as there is an
/// address for that, and where the table ends.
pub proof fn law_modules_follow(memory_base: u32, info: Dylink0MemInfo, slots: u32)
    ensures
        ({
            let next = bases_after(memory_base, info, slots);
            &&& memory_base <= next.0
            &&& memory_base + info.mem_size <= u32::MAX ==> next.0 - memory_base == info.mem_size
            &&& memory_base + info.mem_size > u32::MAX ==> next.0 == u32::MAX
            &&& next.1 == slots
        }),
{
}

/// Where the next module may be placed: behind the memory of this one, and behind
/// every slot of the table, which has `table_size_now` of them once this module's
/// functions have all been put there.
pub fn next_bases(memory_base: u32, info: &Dylink0MemInfo, table_size_now: u32) -> (r: (u32, u32))
    ensures
        r == bases_after(memory_base, *info, table_size_now),
{
    (sat_add(memory_base, info.mem_size), table_size_now)
}

/// What the latest entry for each name says.
pub open spec fn slot_map(s: Seq<(String, u32)>) -> Map<Seq<char>, u32>
    decreases s.len(),
{
    if s.len() == 0 {
        Map::empty()
    } else {
        slot_map(s.drop_last()).insert(s.last().0@, s.last().1)
    }
}

/// The latest entry for a name says which slot it has.
pub proof fn law_latest_slot_counts(s: Seq<(String, u32)>, i: int)
    requires
        0 <= i < s.len(),
        forall|j: int| i < j < s.len() ==> (#[trigger] s[j]).0@ != s[i].0@,
    ensures
        slot_map(s).contains_key(s[i].0@),
        slot_map(s)[s[i].0@] == s[i].1,
    decreases s.len(),
{
    let init = s.drop_last();
    if i < init.len() {
        assert(s[init.len() as int].0@ != s[i].0@);
        assert forall|j: int| i < j < init.len() implies (#[trigger] init[j]).0@ != init[i].0@ by {
            assert(s[j].0@ != s[i].0@);
        }
        law_latest_slot_counts(init, i);
    }
}

/// A name without an entry has no slot.
pub proof fn law_no_slot_without_entry(s: Seq<(String, u32)>, name: Seq<char>)
    requires
        forall|j: int| 0 <= j < s.len() ==> (#[trigger] s[j]).0@ != name,
    ensures
        !slot_map(s).contains_key(name),
    decreases s.len(),
{
    if s.len() > 0 {
        let init = s.drop_last();
        assert forall|j: int| 0 <= j < init.len() implies (#[trigger] init[j]).0@ != name by {
            assert(s[j].0@ != name);
        }
        law_no_slot_without_entry(init, name);
    }
}

/// A loaded side module.
#[derive(Debug)]
pub struct SideModuleHandle {
    /// The embedding's handle of the instance.
    pub instance: usize,
    /// Table slots by function name; the latest entry for a name counts.
    pub func_table_slots: Vec<(String, u32)>,
}

/// What a [`SideModuleHandle`] holds.
#[verifier::ext_equal]
pub struct HandleView {
    pub instance: usize,
    pub slots: Map<Seq<char>, u32>,
}

impl View for SideModuleHandle {
    type V = HandleView;

    open spec fn view(&self) -> HandleView {
        HandleView { instance: self.instance, slots: slot_map(self.func_table_slots@) }
    }
}

impl SideModuleHandle {
    /// The table slot of a function, if it is known.
    pub fn slot(&self, name: &str) -> (r: Option<u32>)
        ensures
            r == if self@.slots.contains_key(name@) {
                Some(self@.slots[name@])
            } else {
                None
            },
    {
        let ghost all = self.func_table_slots@;
        let mut i: usize = self.func_table_slots.len();
        assert(all.take(i as int) =~= all);
        while i > 0
            invariant
                i <= all.len(),
                all == self.func_table_slots@,
                slot_map(all).contains_key(name@) <==> slot_map(all.take(i as int)).contains_key(
                    name@,
                ),
                slot_map(all).contains_key(name@) ==> slot_map(all)[name@] == slot_map(
                    all.take(i as int),
                )[name@],
            decreases i,
        {
            let ghost head = all.take(i as int);
            i = i - 1;
            proof {
                assert(head.drop_last() =~= all.take(i as int));
                assert(head.last() == all[i as int]);
            }
            if same_text(self.func_table_slots[i].0.as_str(), name) {
                return Some(self.func_table_slots[i].1);
            }
        }
        None
    }
}

/// Loaded side modules, by path and by the guest's handles.
pub struct SideModuleRegistry {
    handles: Vec<(String, SideModuleHandle)>,
    by_ptr: HashMap<u32, usize>,
}

/// What a [`SideModuleRegistry`] holds.
#[verifier::ext_equal]
pub struct RegistryView {
    /// The modules in the order of their loading, each with its path.
    pub modules: Seq<(Seq<char>, HandleView)>,
    /// The index of the module that a handle stands for.
    pub by_ptr: Map<u32, usize>,
}

spec fn module_views(s: Seq<(String, SideModuleHandle)>) -> Seq<(Seq<char>, HandleView)> {
    Seq::new(s.len(), |i: int| (s[i].0@, s[i].1@))
}

impl View for SideModuleRegistry {
    type V = RegistryView;

    closed spec fn view(&self) -> RegistryView {
        RegistryView { modules: module_views(self.handles@), by_ptr: self.by_ptr@ }
    }
}

/// Whether one of the paths is the other, or the end of it.
pub open spec fn same_library(a: Seq<char>, b: Seq<char>) -> bool {
    a == b || ends_with(a, b) || ends_with(b, a)
}

impl RegistryView {
    /// The first module from `i` on that a path denotes.
    pub open spec fn path_from(self, path: Seq<char>, i: int) -> Option<int>
        decreases self.modules.len() - i,
    {
        if i >= self.modules.len() {
            None
        } else if same_library(self.modules[i].0, path) {
            Some(i)
        } else {
            self.path_from(path, i + 1)
        }
    }

    /// The index of the module that a handle stands for.
    pub open spec fn index_of(self, ptr: u32) -> Option<int> {
        if self.by_ptr.contains_key(ptr) && self.by_ptr[ptr] < self.modules.len() {
            Some(self.by_ptr[ptr] as int)
        } else {
            None
        }
    }

    /// The registry after a handle was made to stand for a module.
    pub open spec fn with_ptr(self, ptr: u32, idx: usize) -> RegistryView {
        RegistryView { by_ptr: self.by_ptr.insert(ptr, idx), ..self }
    }

    /// The registry with one more module.
    pub open spec fn with_module(self, path: Seq<char>, h: HandleView) -> RegistryView {
        RegistryView { modules: self.modules.push((path, h)), ..self }
    }

    /// The registry after a module was loaded for a handle.
    pub open spec fn with_loaded(self, handle: i32, path: Seq<char>, h: HandleView) -> RegistryView {
        self.with_module(path, h).with_ptr(handle as u32, self.modules.len() as usize)
    }

    /// The registry after the slot of a function of the module behind `ptr` was
    /// noted.
    pub open spec fn with_slot(self, ptr: u32, name: Seq<char>, slot: u32) -> RegistryView {
        match self.index_of(ptr) {
            Some(i) => RegistryView {
                modules: self.modules.update(
                    i,
                    (
                        self.modules[i].0,
                        HandleView {
                            slots: self.modules[i].1.slots.insert(name, slot),
                            ..self.modules[i].1
                        },
                    ),
                ),
                ..self
            },
            None => self,
        }
    }
}

impl Default for SideModuleRegistry {
    fn default() -> (r: Self)
        ensures
            r@ == (RegistryView { modules: Seq::empty(), by_ptr: Map::empty() }),
    {
        SideModuleRegistry::new()
    }
}

impl SideModuleRegistry {
    /// A registry without modules.
    pub fn new() -> (r: Self)
        ensures
            r@ == (RegistryView { modules: Seq::empty(), by_ptr: Map::empty() }),
    {
        let r = SideModuleRegistry { handles: Vec::new(), by_ptr: HashMap::new() };
        assert(r@ =~= (RegistryView { modules: Seq::empty(), by_ptr: Map::empty() }));
        r
    }

    /// Register a loaded module by path. Returns its index.
    pub fn insert(&mut self, path: String, handle: SideModuleHandle) -> (idx: usize)
        ensures
            idx == old(self)@.modules.len(),
            final(self)@ == old(self)@.with_module(path@, handle@),
    {
        let idx: usize = self.handles.len();
        self.handles.push((path, handle));
        assert(self@.modules =~= old(self)@.modules.push((path@, handle@)));
        idx
    }

    /// Record that the guest's handle `dso_ptr` stands for the module `idx`.
    pub fn map_ptr(&mut self, dso_ptr: u32, idx: usize)
        ensures
            final(self)@ == old(self)@.with_ptr(dso_ptr, idx),
    {
        self.by_ptr.insert(dso_ptr, idx);
    }

    /// Look up a module by path (suffix match).
    pub fn find_by_path(&self, path: &str) -> (r: Option<(usize, &SideModuleHandle)>)
        ensures
            match self@.path_from(path@, 0) {
                Some(i) => r matches Some((j, h)) && j == i && 0 <= i < self@.modules.len() && h@
                    == self@.modules[i].1,
                None => r is None,
            },
    {
        let n: usize = self.handles.len();
        let want = chars_of(path);
        let mut i: usize = 0;
        while i < n
            invariant
                i <= n,
                n == self.handles@.len(),
                want@ == path@,
                self@.path_from(path@, 0) == self@.path_from(path@, i as int),
            decreases n - i,
        {
            let have = chars_of(self.handles[i].0.as_str());
            assert(self@.modules[i as int].0 == have@);
            if same_text(self.handles[i].0.as_str(), path) || has_suffix(&have, &want)
                || has_suffix(&want, &have) {
                return Some((i, &self.handles[i].1));
            }
            i = i + 1;
        }
        None
    }

    /// The index of the module that a handle stands for.
    fn index(&self, dso_ptr: u32) -> (r: Option<usize>)
        ensures
            match self@.index_of(dso_ptr) {
                Some(i) => r is Some && r->0 == i && i < self.handles@.len(),
                None => r is None,
            },
    {
        match self.by_ptr.get(&dso_ptr) {
            Some(i) => if *i < self.handles.len() {
                Some(*i)
            } else {
                None
            },
            None => None,
        }
    }

    /// Look up a module by the guest's handle.
    pub fn get_by_ptr(&self, dso_ptr: u32) -> (r: Option<&SideModuleHandle>)
        ensures
            match self@.index_of(dso_ptr) {
                Some(i) => r is Some && r->0@ == self@.modules[i].1,
                None => r is None,
            },
    {
        match self.index(dso_ptr) {
            Some(i) => Some(&self.handles[i].1),
            None => None,
        }
    }

    /// Look up a module by the guest's handle, to change it.
    pub fn get_by_ptr_mut(&mut self, dso_ptr: u32) -> (r: Option<&mut SideModuleHandle>)
        ensures
            match old(self)@.index_of(dso_ptr) {
                Some(i) => r matches Some(h) && h@ == old(self)@.modules[i].1 && final(self)@ == (
                RegistryView {
                    modules: old(self)@.modules.update(
                        i,
                        (old(self)@.modules[i].0, final(h)@),
                    ),
                    ..old(self)@
                }),
                None => r is None && final(self)@ == old(self)@,
            },
    {
        match self.index(dso_ptr) {
            Some(i) => Some(&mut self.handles[i].1),
            None => None,
        }
    }

    /// Whether no module is loaded.
    pub fn is_empty(&self) -> (r: bool)
        ensures
            r == (self@.modules.len() == 0),
    {
        self.handles.len() == 0
    }

    /// All loaded instances in the order of their loading.
    pub fn all_instances(&self) -> (r: Vec<usize>)
        ensures
            r@ == Seq::new(self@.modules.len(), |i: int| self@.modules[i].1.instance),
    {
        let n: usize = self.handles.len();
        let mut out: Vec<usize> = Vec::new();
        let mut i: usize = 0;
        while i < n
            invariant
                i <= n,
                n == self.handles@.len(),
                out@ == Seq::new(i as nat, |k: int| self@.modules[k].1.instance),
            decreases n - i,
        {
            out.push(self.handles[i].1.instance);
            i = i + 1;
        }
        out
    }

    /// Note the table slot of a function of the module that a handle stands for.
    pub fn set_slot(&mut self, dso_ptr: u32, name: String, slot: u32)
        ensures
            final(self)@ == old(self)@.with_slot(dso_ptr, name@, slot),
    {
        let i: usize = match self.index(dso_ptr) {
            None => {
                return ;
            },
            Some(i) => i,
        };
        let ghost was = self.handles@[i as int].1.func_table_slots@;
        self.handles[i].1.func_table_slots.push((name, slot));
        proof {
            let now = self.handles@[i as int].1.func_table_slots@;
            assert(now.drop_last() =~= was);
            assert(self@.modules =~= old(self)@.with_slot(dso_ptr, name@, slot).modules);
        }
    }
}

/// Where the structure behind a library handle keeps its file name.
pub open spec fn dso_name_ptr(handle: i32) -> i32 {
    sat((handle as u32) + 36) as i32
}

/// The name of the library that a handle is for.
pub open spec fn dso_name(mem: Seq<u8>, handle: i32) -> Option<Seq<char>> {
    match cstr_at(mem, dso_name_ptr(handle)) {
        Some(bytes) => Some(utf8_lossy(bytes)),
        None => None,
    }
}

/// The directories in which a library is looked for, each with its slash. The
/// first is none: the name may be a path already.
pub open spec fn library_dirs() -> Seq<Seq<char>> {
    seq![
        ""@,
        "/lib/python3.13/site-packages/"@,
        "/lib/python3.12/site-packages/"@,
        "/usr/lib/python3/site-packages/"@,
    ]
}

/// The contents of the library `name`: those of the first file that there is
/// under one of the directories, from `i` on.
pub open spec fn library_from(fs: FsView, name: Seq<char>, i: int) -> Option<Seq<u8>>
    decreases 4 - i,
{
    if i >= 4 {
        None
    } else {
        let path = library_dirs()[i] + name;
        if fs.nodes.contains_key(path) && fs.nodes[path] is File {
            match fs.nodes[path] {
                NodeView::File(data) => Some(data),
                NodeView::Dir => None,
            }
        } else {
            library_from(fs, name, i + 1)
        }
    }
}

fn library_in(fs: &InMemFs, dir: &str, name: &str) -> (r: Option<Vec<u8>>)
    requires
        fs.wf(),
    ensures
        ({
            let path = dir@ + name@;
            match r {
                Some(v) => fs@.nodes.contains_key(path) && fs@.nodes[path] == NodeView::File(v@),
                None => !(fs@.nodes.contains_key(path) && fs@.nodes[path] is File),
            }
        }),
{
    let path = concat(dir, name);
    match fs.read_file(path.as_str()) {
        Some(data) => Some(vstd::slice::slice_to_vec(data)),
        None => None,
    }
}

fn find_library(fs: &InMemFs, name: &str) -> (r: Option<Vec<u8>>)
    requires
        fs.wf(),
    ensures
        match library_from(fs@, name@, 0) {
            Some(data) => r is Some && r->0@ == data,
            None => r is None,
        },
{
    proof {
        reveal_with_fuel(library_from, 5);
    }
    match library_in(fs, "", name) {
        Some(v) => {
            return Some(v);
        },
        None => {},
    }
    match library_in(fs, "/lib/python3.13/site-packages/", name) {
        Some(v) => {
            return Some(v);
        },
        None => {},
    }
    match library_in(fs, "/lib/python3.12/site-packages/", name) {
        Some(v) => {
            return Some(v);
        },
        None => {},
    }
    library_in(fs, "/usr/lib/python3/site-packages/", name)
}

/// How `dlopen` goes on.
#[derive(Debug)]
pub enum DlopenStep {
    /// The guest gets this value.
    Return(i32),
    /// The library has to be loaded from these bytes.
    Load { name: String, bytes: Vec<u8> },
}

/// What `dlopen` of the library `name` does: a handle that already stands for a
/// module is good, one whose library is loaded is made to stand for it, and any
/// other library is loaded if there is a file for it.
pub open spec fn dlopened(
    before: RegistryView,
    after: RegistryView,
    fs: FsView,
    handle: i32,
    name: Seq<char>,
    r: DlopenStep,
) -> bool {
    if before.index_of(handle as u32) is Some {
        after == before && r == DlopenStep::Return(handle)
    } else {
        match before.path_from(name, 0) {
            Some(i) => after == before.with_ptr(handle as u32, i as usize) && r
                == DlopenStep::Return(handle),
            None => after == before && match library_from(fs, name, 0) {
                Some(data) => r matches DlopenStep::Load { name: n, bytes } && n@ == name
                    && bytes@ == data,
                None => r == DlopenStep::Return(0),
            },
        }
    }
}

/// `dlopen` with the name of the library already read.
pub fn dlopen_named(reg: &mut SideModuleRegistry, fs: &InMemFs, handle: i32, name: String) -> (r:
    DlopenStep)
    requires
        fs.wf(),
    ensures
        dlopened(old(reg)@, final(reg)@, fs@, handle, name@, r),
{
    let ptr: u32 = handle as u32;
    if reg.get_by_ptr(ptr).is_some() {
        return DlopenStep::Return(handle);
    }
    let known: Option<usize> = match reg.find_by_path(name.as_str()) {
        Some((i, _)) => Some(i),
        None => None,
    };
    match known {
        Some(i) => {
            reg.map_ptr(ptr, i);
            DlopenStep::Return(handle)
        },
        None => match find_library(fs, name.as_str()) {
            Some(bytes) => DlopenStep::Load { name, bytes },
            None => DlopenStep::Return(0),
        },
    }
}

/// `_dlopen_js`: open the library whose name the structure at `handle` holds.
/// Returns the handle, or 0 if that fails.
pub fn dlopen(reg: &mut SideModuleRegistry, fs: &InMemFs, mem: &[u8], handle: i32) -> (r:
    DlopenStep)
    requires
        fs.wf(),
    ensures
        match dso_name(mem@, handle) {
            None => r == DlopenStep::Return(0) && final(reg)@ == old(reg)@,
            Some(name) => dlopened(old(reg)@, final(reg)@, fs@, handle, name, r),
        },
{
    let at: i32 = sat_add(handle as u32, 36) as i32;
    match read_cstr(mem, at) {
        None => DlopenStep::Return(0),
        Some(name) => dlopen_named(reg, fs, handle, name),
    }
}

/// Complete a `dlopen` that had to load the library; `None` if that failed.
pub fn finish_dlopen(
    reg: &mut SideModuleRegistry,
    handle: i32,
    name: String,
    loaded: Option<SideModuleHandle>,
) -> (r: i32)
    ensures
        match loaded {
            None => r == 0 && final(reg)@ == old(reg)@,
            Some(h) => r == handle && final(reg)@ == old(reg)@.with_loaded(handle, name@, h@),
        },
{
    match loaded {
        None => 0,
        Some(h) => {
            let idx: usize = reg.insert(name, h);
            reg.map_ptr(handle as u32, idx);
            handle
        },
    }
}

/// `dlopen` of a library that no handle and no loaded module stands for looks for a
/// file under the name as it is given, then in the site packages of Python 3.13 and
/// of Python 3.12, then in `/usr/lib/python3/site-packages`. The bytes to load are
/// those of the first file that there is, and the guest gets 0 only if there is none
/// in any of the four places.
pub proof fn law_dlopen_searches(
    before: RegistryView,
    after: RegistryView,
    fs: FsView,
    handle: i32,
    name: Seq<char>,
    r: DlopenStep,
)
    requires
        before.index_of(handle as u32) is None,
        forall|i: int, head: Seq<char>|
            0 <= i < before.modules.len() ==> (#[trigger] before.modules[i]).0 != #[trigger] (head
                + name) && name != head + before.modules[i].0,
        dlopened(before, after, fs, handle, name, r),
    ensures
        after == before,
        ({
            let a = name;
            let b = "/lib/python3.13/site-packages/"@ + name;
            let c = "/lib/python3.12/site-packages/"@ + name;
            let d = "/usr/lib/python3/site-packages/"@ + name;
            let here = |p: Seq<char>| fs.nodes.contains_key(p) && fs.nodes[p] is File;
            let loads = |p: Seq<char>|
                r matches DlopenStep::Load { name: n, bytes } && n@ == name && NodeView::File(
                    bytes@,
                ) == fs.nodes[p];
            &&& here(a) ==> loads(a)
            &&& !here(a) && here(b) ==> loads(b)
            &&& !here(a) && !here(b) && here(c) ==> loads(c)
            &&& !here(a) && !here(b) && !here(c) && here(d) ==> loads(d)
            &&& !here(a) && !here(b) && !here(c) && !here(d) ==> r == DlopenStep::Return(0)
        }),
{
    law_path_finds_first(before, name, 0);
    if let Some(k) = before.path_from(name, 0) {
        let found = before.modules[k].0;
        let head = choose|head: Seq<char>| found == head + name || name == head + found;
        assert(before.modules[k].0 != head + name);
    }
    reveal_with_fuel(library_from, 5);
    reveal_strlit("");
    assert(""@ + name =~= name);
}

/// Looking a library up by path, from module `i` on, finds the first module whose
/// path is the given one or ends with it, or which the given one ends with.
pub proof fn law_path_finds_first(s: RegistryView, path: Seq<char>, i: int)
    requires
        0 <= i,
    ensures
        match s.path_from(path, i) {
            Some(k) => {
                let found = s.modules[k].0;
                &&& i <= k < s.modules.len()
                &&& (exists|head: Seq<char>| found == head + path || path == head + found)
                &&& forall|j: int, head: Seq<char>|
                    i <= j < k ==> (#[trigger] s.modules[j]).0 != #[trigger] (head + path) && path
                        != head + s.modules[j].0
            },
            None => forall|j: int, head: Seq<char>|
                i <= j < s.modules.len() ==> (#[trigger] s.modules[j]).0 != #[trigger] (head + path)
                    && path != head + s.modules[j].0,
        },
    decreases s.modules.len() - i,
{
    if i < s.modules.len() {
        let m = s.modules[i].0;
        lemma_same_library(m, path);
        if !same_library(m, path) {
            law_path_finds_first(s, path, i + 1);
            assert forall|j: int, head: Seq<char>| i <= j < i + 1 implies (#[trigger] s.modules[j]).0
                != #[trigger] (head + path) && path != head + s.modules[j].0 by {
                assert(!(m == head + path || path == head + m));
            }
        }
    }
}

/// One of two paths ends with the other exactly if it is the other behind some head.
proof fn lemma_same_library(a: Seq<char>, b: Seq<char>)
    ensures
        same_library(a, b) <==> exists|head: Seq<char>| a == head + b || b == head + a,
{
    if same_library(a, b) {
        if a == b {
            assert(a =~= Seq::<char>::empty() + b);
        } else if ends_with(a, b) {
            let head = a.take(a.len() - b.len());
            assert(a =~= head + b);
        } else {
            let head = b.take(b.len() - a.len());
            assert(b =~= head + a);
        }
    }
    if exists|head: Seq<char>| a == head + b || b == head + a {
        let head = choose|head: Seq<char>| a == head + b || b == head + a;
        if a == head + b {
            assert(a.skip(a.len() - b.len()) =~= b);
        } else {
            assert(b.skip(b.len() - a.len()) =~= a);
        }
    }
}

/// A library is loaded once: after it was loaded for one handle, `dlopen` of it
/// through another one returns that handle, which then stands for a module that the
/// name denotes, and asks for no file.
pub proof fn law_library_loads_once(
    s: RegistryView,
    handle: i32,
    name: Seq<char>,
    h: HandleView,
    other: i32,
    after: RegistryView,
    fs: FsView,
    r: DlopenStep,
)
    requires
        s.modules.len() < usize::MAX,
        s.index_of(other as u32) is None,
        s.by_ptr.contains_key(other as u32) ==> s.by_ptr[other as u32] != s.modules.len(),
        other as u32 != handle as u32,
        dlopened(
            s.with_loaded(handle, name, h),
            after,
            fs,
            other,
            name,
            r,
        ),
    ensures
        r == DlopenStep::Return(other),
        after.modules == s.modules.push((name, h)),
        after.by_ptr.contains_key(other as u32),
        ({
            let k = after.by_ptr[other as u32] as int;
            k < after.modules.len() && exists|head: Seq<char>|
                after.modules[k].0 == head + name || name == head + after.modules[k].0
        }),
        forall|p: u32|
            p != other as u32 && p != handle as u32 && s.by_ptr.contains_key(p)
                ==> after.by_ptr.contains_key(p) && #[trigger] after.by_ptr[p] == s.by_ptr[p],
{
    let t = s.with_loaded(handle, name, h);
    law_path_finds_first(t, name, 0);
    assert(t.modules[s.modules.len() as int].0 == Seq::<char>::empty() + name);
    lemma_same_library(name, name);
}

/// The name of the library that a handle is for is the C string that stands 36 bytes
/// into the structure behind the handle.
pub proof fn law_name_stands_in_handle(mem: Seq<u8>, handle: i32, text: Seq<u8>)
    requires
        handle as u32 + 36 + text.len() < mem.len(),
        handle as u32 + 36 <= u32::MAX,
        mem.subrange(handle as u32 + 36, handle as u32 + 36 + text.len()) == text,
        mem[handle as u32 + 36 + text.len()] == 0,
        forall|i: int| 0 <= i < text.len() ==> text[i] != 0,
    ensures
        dso_name(mem, handle) == Some(utf8_lossy(text)),
{
    let at = handle as u32 + 36;
    let q = at as u32;
    assert(q as i32 as u32 == q) by (bit_vector);
    assert(dso_name_ptr(handle) as u32 == at);
    assert forall|i: int| at <= i < at + text.len() implies mem[i] != 0 by {
        assert(mem.subrange(at, at + text.len())[i - at] == mem[i]);
    }
    law_nul_is_first(mem, at);
}

/// A library that was loaded is found again by its handle.
pub proof fn law_loaded_is_found(s: RegistryView, handle: i32, name: Seq<char>, h: HandleView)
    requires
        s.modules.len() < usize::MAX,
    ensures
        ({
            let after = s.with_loaded(handle, name, h);
            &&& after.index_of(handle as u32) == Some(s.modules.len() as int)
            &&& after.modules[s.modules.len() as int] == (name, h)
            &&& after.modules.drop_last() == s.modules
            &&& forall|p: u32|
                p != handle as u32 && #[trigger] s.by_ptr.contains_key(p)
                    ==> after.by_ptr.contains_key(p) && after.by_ptr[p] == s.by_ptr[p]
        }),
{
}

/// How `dlsym` goes on.
#[derive(Debug)]
pub enum DlsymStep {
    /// The guest gets this value.
    Return(i32),
    /// The function `name` of the instance has to be put into a new table slot.
    Insert { instance: usize, name: String },
}

/// What `dlsym` of the symbol `name` does: a function whose slot is known is
/// that slot, any other has to be put into the table.
pub open spec fn dlsymmed(
    reg: RegistryView,
    before: Seq<u8>,
    after: Seq<u8>,
    handle: i32,
    name: Seq<char>,
    idx_ptr: i32,
    has_table: bool,
    r: DlsymStep,
) -> bool {
    match reg.index_of(handle as u32) {
        Some(i) if has_table => {
            let h = reg.modules[i].1;
            if h.slots.contains_key(name) {
                &&& r == DlsymStep::Return(h.slots[name] as i32)
                &&& after == word_told(before, idx_ptr, h.slots[name] as nat)
            } else {
                &&& after == before
                &&& r matches DlsymStep::Insert { instance, name: n }
                &&& instance == h.instance
                &&& n@ == name
            }
        },
        _ => r == DlsymStep::Return(0) && after == before,
    }
}

fn tell_index(mem: &mut [u8], ptr: i32, slot: u32)
    ensures
        final(mem)@ == word_told(old(mem)@, ptr, slot as nat),
{
    if ptr != 0 {
        write_u32(mem, ptr, slot);
    }
}

/// `dlsym` with the name of the symbol already read.
pub fn dlsym_named(
    reg: &SideModuleRegistry,
    mem: &mut [u8],
    handle: i32,
    name: String,
    idx_ptr: i32,
    has_table: bool,
) -> (r: DlsymStep)
    ensures
        dlsymmed(reg@, old(mem)@, final(mem)@, handle, name@, idx_ptr, has_table, r),
{
    if !has_table {
        return DlsymStep::Return(0);
    }
    match reg.get_by_ptr(handle as u32) {
        None => DlsymStep::Return(0),
        Some(h) => match h.slot(name.as_str()) {
            Some(slot) => {
                tell_index(mem, idx_ptr, slot);
                DlsymStep::Return(slot as i32)
            },
            None => DlsymStep::Insert { instance: h.instance, name },
        },
    }
}

/// `_dlsym_js`: the table slot of the function whose name is at `sym_ptr`, in the
/// library that `handle` stands for; 0 if there is none. The slot also goes to
/// `idx_ptr`.
pub fn dlsym(
    reg: &SideModuleRegistry,
    mem: &mut [u8],
    handle: i32,
    sym_ptr: i32,
    idx_ptr: i32,
    has_table: bool,
) -> (r: DlsymStep)
    ensures
        match cstr_at(old(mem)@, sym_ptr) {
            None => r == DlsymStep::Return(0) && final(mem)@ == old(mem)@,
            Some(bytes) => dlsymmed(
                reg@,
                old(mem)@,
                final(mem)@,
                handle,
                utf8_lossy(bytes),
                idx_ptr,
                has_table,
                r,
            ),
        },
{
    match read_cstr(mem, sym_ptr) {
        None => DlsymStep::Return(0),
        Some(name) => dlsym_named(reg, mem, handle, name, idx_ptr, has_table),
    }
}

/// Complete a `dlsym` that had to put the function into the table: `None` if the
/// library has no such function or the table could not grow. The slot is kept, so
/// that the symbol has the same one the next time.
pub fn finish_dlsym(
    reg: &mut SideModuleRegistry,
    mem: &mut [u8],
    handle: i32,
    name: String,
    idx_ptr: i32,
    slot: Option<u32>,
) -> (r: i32)
    ensures
        match slot {
            None => r == 0 && final(reg)@ == old(reg)@ && final(mem)@ == old(mem)@,
            Some(n) => {
                &&& r == n as i32
                &&& final(reg)@ == old(reg)@.with_slot(handle as u32, name@, n)
                &&& final(mem)@ == word_told(old(mem)@, idx_ptr, n as nat)
            },
        },
{
    match slot {
        None => 0,
        Some(n) => {
            reg.set_slot(handle as u32, name, n);
            tell_index(mem, idx_ptr, n);
            n as i32
        },
    }
}

/// A function whose slot is known is looked up without touching the table: the guest
/// gets the slot, and reads it at the place that it gave. A function that is not known
/// yet is put into the table from the instance of the very module that the handle
/// stands for. A handle that stands for nothing gives 0.
pub proof fn law_symbol_is_looked_up(
    reg: RegistryView,
    before: Seq<u8>,
    after: Seq<u8>,
    handle: i32,
    name: Seq<char>,
    idx_ptr: i32,
    k: usize,
    r: DlsymStep,
)
    requires
        dlsymmed(reg, before, after, handle, name, idx_ptr, true, r),
        reg.by_ptr.contains_key(handle as u32) ==> reg.by_ptr[handle as u32] == k,
    ensures
        after.len() == before.len(),
        !reg.by_ptr.contains_key(handle as u32) || k >= reg.modules.len() ==> r
            == DlsymStep::Return(0) && after == before,
        reg.by_ptr.contains_key(handle as u32) && k < reg.modules.len() ==> {
            let h = reg.modules[k as int].1;
            &&& !h.slots.contains_key(name) ==> {
                &&& after == before
                &&& r matches DlsymStep::Insert { instance, name: n }
                &&& instance == h.instance
                &&& n@ == name
            }
            &&& h.slots.contains_key(name) ==> {
                &&& r == DlsymStep::Return(h.slots[name] as i32)
                &&& idx_ptr != 0 && idx_ptr as u32 + 4 <= before.len() ==> word_at(
                    after,
                    idx_ptr as u32 as int,
                ) == h.slots[name]
                &&& forall|i: int|
                    0 <= i < before.len() && !(idx_ptr as u32 <= i < idx_ptr as u32 + 4)
                        ==> #[trigger] after[i] == before[i]
            }
        },
{
    if reg.by_ptr.contains_key(handle as u32) && k < reg.modules.len() {
        let h = reg.modules[k as int].1;
        if h.slots.contains_key(name) {
            law_word_is_told(before, idx_ptr, h.slots[name]);
        }
    }
}

/// A symbol that was looked up keeps its slot: the next lookup returns the same
/// one and asks for nothing.
pub proof fn law_symbol_keeps_slot(
    s: RegistryView,
    handle: i32,
    name: Seq<char>,
    slot: u32,
    before: Seq<u8>,
    after: Seq<u8>,
    idx_ptr: i32,
    r: DlsymStep,
)
    requires
        s.index_of(handle as u32) is Some,
        dlsymmed(
            s.with_slot(handle as u32, name, slot),
            before,
            after,
            handle,
            name,
            idx_ptr,
            true,
            r,
        ),
    ensures
        r == DlsymStep::Return(slot as i32),
{
}

} // verus!
