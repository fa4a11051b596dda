//! Plain `env.*` functions of an Emscripten module.

use std::collections::VecDeque;

use vstd::prelude::*;
use vstd::utf8::{
    decode_utf8, encode_utf8, encode_utf8_decode_utf8, encode_utf8_valid_utf8,
    is_ascii_chars_encode_utf8, valid_utf8,
};

use crate::bytes::{
    addr, addr_of, bytes_at, guest_range, in_range, law_le_round_trip, le_bytes, le_limit,
    lemma_le_bytes_len, lemma_word_reads_back, splice, u32_at, u32_bytes, word_at, write_at,
    write_bytes, write_u32,
};
use crate::emscripten_invoke::{read_table, sig_views, table_sigs, ImportSig};
use crate::emscripten_runtime::WasmMemoryConfig;
use crate::fs_records::zero_bytes;
use crate::ring::ring_push;
use crate::socket_abi::{
    dotted, law_sockaddr_fields, law_sockaddr_is_read, octets, octets_of, sockaddr_bytes,
    sockaddr_in_at, sockaddr_of,
};
use crate::text::{
    hex, push_hex, string_from_utf8, string_from_utf8_lossy, utf8_lossy,
};

verus! {

/// The index of the first NUL byte from `i` on.
pub open spec fn nul_from(mem: Seq<u8>, i: int) -> Option<int>
    decreases mem.len() - i,
{
    if i >= mem.len() {
        None
    } else if mem[i] == 0 {
        Some(i)
    } else {
        nul_from(mem, i + 1)
    }
}

/// The first NUL byte, from `i` on, is one, and there is none before it.
pub proof fn law_nul_is_first(mem: Seq<u8>, i: int)
    requires
        0 <= i,
    ensures
        match nul_from(mem, i) {
            Some(k) => i <= k < mem.len() && mem[k] == 0 && forall|j: int|
                i <= j < k ==> #[trigger] mem[j] != 0,
            None => forall|j: int| i <= j < mem.len() ==> #[trigger] mem[j] != 0,
        },
    decreases mem.len() - i,
{
    if i < mem.len() && mem[i] != 0 {
        law_nul_is_first(mem, i + 1);
    }
}

/// The bytes of the NUL-terminated string at `ptr`, or `None` if it does not
/// end inside memory.
pub open spec fn cstr_at(mem: Seq<u8>, ptr: i32) -> Option<Seq<u8>> {
    match nul_from(mem, addr(ptr)) {
        Some(end) => Some(mem.subrange(addr(ptr), end)),
        None => None,
    }
}

/// Read a NUL-terminated C string from guest memory. `None` if the string does
/// not end inside memory.
pub fn read_cstr(mem: &[u8], ptr: i32) -> (r: Option<String>)
    ensures
        match cstr_at(mem@, ptr) {
            Some(bytes) => r is Some && r->0@ == utf8_lossy(bytes),
            None => r is None,
        },
{
    let start: usize = addr_of(ptr);
    let n: usize = mem.len();
    let mut i: usize = start;
    while i < n
        invariant
            start <= i,
            start == addr(ptr),
            n == mem@.len(),
            nul_from(mem@, start as int) == nul_from(mem@, i as int),
        decreases n - i,
    {
        if mem[i] == 0 {
            return Some(string_from_utf8_lossy(&mem[start..i]));
        }
        i = i + 1;
    }
    None
}

/// The largest heap that is reported: one page short of 4 GiB. A full 4 GiB would
/// read as 0 in the 32-bit interface.
pub const HEAP_MAX_CAP: u64 = 4_294_901_760;

/// The maximum heap size in bytes for a configuration that allows `max_pages`, or that
/// could not be read.
pub open spec fn heap_limit(max_pages: Option<u32>) -> int {
    let pages = match max_pages {
        Some(n) => n as int,
        None => 65_536,
    };
    if pages * 65_536 <= HEAP_MAX_CAP {
        pages * 65_536
    } else {
        HEAP_MAX_CAP as int
    }
}

/// The heap may grow to all pages of 64 KiB that the configuration allows, but never to
/// the full 4 GiB: the last page of these is left out, so that the limit is not read as 0.
pub proof fn law_heap_limit(max_pages: u32)
    ensures
        max_pages < 65_536 ==> heap_limit(Some(max_pages)) == max_pages * 64 * 1024,
        max_pages >= 65_536 ==> heap_limit(Some(max_pages)) == 65_535 * 64 * 1024,
        heap_limit(None) == 65_535 * 64 * 1024,
        heap_limit(Some(max_pages)) <= u32::MAX,
{
}

/// The maximum heap size in bytes that the guest is told. A configuration that
/// could not be read counts as the full address space.
pub fn heap_max_bytes(config: &Result<WasmMemoryConfig, String>) -> (r: i32)
    ensures
        r == (heap_limit(
            match *config {
                Ok(c) => Some(c.max_pages),
                Err(_) => None,
            },
        ) as u32) as i32,
{
    let pages: u64 = match config {
        Ok(c) => c.max_pages as u64,
        Err(_) => 65_536,
    };
    let bytes: u64 = if pages * 65_536 <= HEAP_MAX_CAP {
        pages * 65_536
    } else {
        HEAP_MAX_CAP
    };
    (bytes as u32) as i32
}

/// What a request to grow the heap comes to.
#[derive(Debug, Clone, Copy, PartialEq, Eq, Structural)]
pub enum HeapStep {
    /// It is large enough: the guest gets 1.
    Enough,
    /// Memory has to grow by this many pages.
    Grow(u64),
}

/// `emscripten_resize_heap`: how many pages memory of `current` bytes lacks to
/// hold `requested` bytes.
pub fn resize_heap(current: usize, requested: i32) -> (r: HeapStep)
    ensures
        ({
            let wanted = requested as u32;
            match r {
                HeapStep::Enough => wanted <= current,
                HeapStep::Grow(pages) => {
                    &&& wanted > current
                    &&& current + pages * 65_536 >= wanted
                    &&& current + (pages - 1) * 65_536 < wanted
                },
            }
        }),
{
    let wanted: usize = requested as u32 as usize;
    if wanted <= current {
        return HeapStep::Enough;
    }
    let lack: u64 = (wanted - current) as u64;
    HeapStep::Grow(
        if lack % 65_536 == 0 {
            lack / 65_536
        } else {
            lack / 65_536 + 1
        },
    )
}

/// Complete a heap growth: 1 if memory grew, 0 if it was refused.
pub fn finish_resize(grown: bool) -> (r: i32)
    ensures
        r == if grown {
            1i32
        } else {
            0i32
        },
{
    if grown {
        1
    } else {
        0
    }
}

/// Memory after `num` bytes were copied, unless one of the ranges leaves it.
pub open spec fn copied(mem: Seq<u8>, dest: i32, src: i32, num: i32) -> Seq<u8> {
    let n = num as u32 as int;
    if guest_range(mem, src, n) && guest_range(mem, dest, n) {
        splice(mem, addr(dest), mem.subrange(addr(src), addr(src) + n))
    } else {
        mem
    }
}

/// Copying makes the bytes at the destination those that the source held before, also
/// where the two overlap, and changes no other byte. A range that leaves memory copies
/// nothing.
pub proof fn law_copy_moves_bytes(mem: Seq<u8>, dest: i32, src: i32, num: i32, i: int)
    requires
        0 <= i < mem.len(),
    ensures
        ({
            let m = copied(mem, dest, src, num);
            let fits = dest as u32 + num as u32 <= mem.len() && src as u32 + num as u32
                <= mem.len();
            &&& m.len() == mem.len()
            &&& fits && dest as u32 <= i < dest as u32 + num as u32 ==> m[i] == mem[src as u32 + (i
                - dest as u32)]
            &&& !fits || !(dest as u32 <= i < dest as u32 + num as u32) ==> m[i] == mem[i]
        }),
{
}

/// `emscripten_memcpy_*`: copy `num` bytes from `src` to `dest`, which may
/// overlap. Nothing happens if one of the ranges leaves memory.
pub fn memcpy(mem: &mut [u8], dest: i32, src: i32, num: i32)
    ensures
        final(mem)@ == copied(old(mem)@, dest, src, num),
{
    let n: usize = num as u32 as usize;
    let d: usize = addr_of(dest);
    let s: usize = addr_of(src);
    let len: usize = mem.len();
    if in_range(len, s, n) && in_range(len, d, n) {
        let block = bytes_at(mem, s, n);
        write_at(mem, d, &block);
    }
}

/// Captured output after a line of console text.
pub open spec fn console_shown(out: Seq<u8>, text: Seq<char>, tagged: bool) -> Seq<u8> {
    let tag = if tagged {
        encode_utf8("[console] "@)
    } else {
        Seq::empty()
    };
    out + tag + encode_utf8(text) + seq![10u8]
}

/// A line of console text stands behind all that was captured before and ends with a line
/// break; between them are the text in UTF-8 and, if it is tagged, `[console] ` before it.
pub proof fn law_console_line_is_last(out: Seq<u8>, text: Seq<char>, tagged: bool)
    ensures
        ({
            let shown = console_shown(out, text, tagged);
            let n = encode_utf8(text).len();
            let t = if tagged {
                10int
            } else {
                0int
            };
            &&& shown.len() == out.len() + t + n + 1
            &&& shown.take(out.len() as int) == out
            &&& shown.last() == 10
            &&& shown.subrange(out.len() + t, out.len() + t + n) == encode_utf8(text)
            &&& tagged ==> shown.subrange(out.len() as int, out.len() as int + 10) == seq![
                91u8,
                99,
                111,
                110,
                115,
                111,
                108,
                101,
                93,
                32,
            ]
        }),
{
    let shown = console_shown(out, text, tagged);
    let n = encode_utf8(text).len();
    reveal_strlit("[console] ");
    is_ascii_chars_encode_utf8("[console] "@);
    let t = if tagged {
        10int
    } else {
        0int
    };
    assert(shown.take(out.len() as int) =~= out);
    assert(shown.subrange(out.len() + t, out.len() + t + n) =~= encode_utf8(text));
    if tagged {
        assert(shown.subrange(out.len() as int, out.len() as int + 10) =~= encode_utf8("[console] "@));
        assert(encode_utf8("[console] "@) =~= seq![91u8, 99, 111, 110, 115, 111, 108, 101, 93, 32]);
    }
}

/// Add a line of console text to the captured output, behind a tag if `tagged`.
pub fn console_line(out: &mut Vec<u8>, text: &str, tagged: bool)
    ensures
        final(out)@ == console_shown(old(out)@, text@, tagged),
{
    let ghost was = out@;
    if tagged {
        out.extend_from_slice("[console] ".as_bytes());
    }
    out.extend_from_slice(text.as_bytes());
    out.push(10);
    assert(out@ =~= console_shown(was, text@, tagged));
}

/// `emscripten_console_*`, `emscripten_out` and `emscripten_err`: the C string at
/// `ptr` is a line of console text. A string that does not end is dropped.
pub fn console(out: &mut Vec<u8>, mem: &[u8], ptr: i32, tagged: bool)
    ensures
        final(out)@ == match cstr_at(mem@, ptr) {
            Some(bytes) => console_shown(old(out)@, utf8_lossy(bytes), tagged),
            None => old(out)@,
        },
{
    match read_cstr(mem, ptr) {
        Some(text) => console_line(out, text.as_str(), tagged),
        None => {},
    }
}

/// Mark in the captured output that the guest aborted, so that the cause shows
/// even if it printed nothing.
pub fn abort_note(out: &mut Vec<u8>, from_js: bool)
    ensures
        final(out)@ == old(out)@ + encode_utf8(
            if from_js {
                "[_abort_js reached]\n"@
            } else {
                "[abort reached]\n"@
            },
        ),
{
    if from_js {
        out.extend_from_slice("[_abort_js reached]\n".as_bytes());
    } else {
        out.extend_from_slice("[abort reached]\n".as_bytes());
    }
}

/// How many exceptions a [`ThrowLog`] keeps.
pub const THROW_LOG_CAP: usize = 64;

/// The C++ exceptions that a guest threw.
pub struct ThrowLog {
    thrown: i32,
    count: u64,
    entries: VecDeque<(u64, String)>,
}

/// What a [`ThrowLog`] holds.
#[verifier::ext_equal]
pub struct ThrowView {
    /// The exception that is under way; 0 if there was none yet.
    pub thrown: i32,
    /// How many were thrown, up to where the count wraps.
    pub count: u64,
    /// The latest ones, each with its number and the name of its type.
    pub entries: Seq<(u64, Seq<char>)>,
}

spec fn throw_views(s: Seq<(u64, String)>) -> Seq<(u64, Seq<char>)> {
    Seq::new(s.len(), |i: int| (s[i].0, s[i].1@))
}

impl View for ThrowLog {
    type V = ThrowView;

    closed spec fn view(&self) -> ThrowView {
        ThrowView {
            thrown: self.thrown,
            count: self.count,
            entries: throw_views(self.entries@),
        }
    }
}

impl ThrowView {
    /// The log after one more exception.
    pub open spec fn with_throw(self, ptr: i32, name: Seq<char>) -> ThrowView {
        let count = self.count.wrapping_add(1);
        ThrowView {
            thrown: ptr,
            count,
            entries: ring_push(self.entries, (count, name), THROW_LOG_CAP as nat),
        }
    }
}

/// An exception that was thrown is the one under way and the latest in the log, with the
/// number of exceptions up to it; the log keeps no more than 64, and drops the oldest.
pub proof fn law_throw_is_latest(log: ThrowView, ptr: i32, name: Seq<char>)
    requires
        log.count < u64::MAX,
    ensures
        ({
            let t = log.with_throw(ptr, name);
            &&& t.thrown == ptr
            &&& t.count == log.count + 1
            &&& t.entries.len() > 0
            &&& t.entries.last() == (t.count, name)
            &&& log.entries.len() < 64 ==> t.entries.drop_last() == log.entries
            &&& log.entries.len() == 64 ==> t.entries.len() == 64 && t.entries.drop_last()
                == log.entries.skip(1)
        }),
{
    let t = log.with_throw(ptr, name);
    if log.entries.len() < 64 {
        assert(t.entries.drop_last() =~= log.entries);
    } else {
        assert(t.entries.drop_last() =~= log.entries.skip(1));
    }
}

/// Where a type description keeps the pointer to its name; 0 outside memory.
pub open spec fn name_ptr(mem: Seq<u8>, tp: i32) -> int {
    if addr(tp) + 8 <= mem.len() {
        word_at(mem, addr(tp) + 4) as int
    } else {
        0
    }
}

/// The bytes of the type name at `p`; none if it does not end.
pub open spec fn name_bytes(mem: Seq<u8>, p: int) -> Seq<u8> {
    match nul_from(mem, p) {
        Some(end) => mem.subrange(p, end),
        None => Seq::empty(),
    }
}

/// The name of the type that is described at `tp`, or a note that it has none.
pub open spec fn thrown_name(mem: Seq<u8>, tp: i32) -> Seq<char> {
    let p = name_ptr(mem, tp);
    if p != 0 && p < mem.len() {
        utf8_lossy(name_bytes(mem, p))
    } else {
        "<name_ptr=0x"@ + hex(p as nat) + " out of bounds>"@
    }
}

/// A type description that has, behind its first word, a pointer to a C string names the
/// type by that string.
pub proof fn law_type_is_named(mem: Seq<u8>, tp: i32, text: Seq<u8>)
    requires
        tp as u32 + 8 <= mem.len(),
        ({
            let p = word_at(mem, tp as u32 + 4) as int;
            &&& p > 0
            &&& p + text.len() < mem.len()
            &&& mem.subrange(p, p + text.len()) == text
            &&& mem[p + text.len()] == 0
        }),
        forall|i: int| 0 <= i < text.len() ==> text[i] != 0,
    ensures
        thrown_name(mem, tp) == utf8_lossy(text),
{
    let p = word_at(mem, tp as u32 + 4) as int;
    law_nul_is_first(mem, p);
    assert forall|j: int| p <= j < p + text.len() implies #[trigger] mem[j] != 0 by {
        assert(mem.subrange(p, p + text.len())[j - p] == mem[j]);
    }
}

/// A type description that leaves memory, or has no name inside memory, gives a note with
/// the pointer that it holds.
pub proof fn law_unnamed_type_is_noted(mem: Seq<u8>, tp: i32)
    ensures
        tp as u32 + 8 > mem.len() ==> thrown_name(mem, tp) == "<name_ptr=0x"@ + hex(0)
            + " out of bounds>"@,
        tp as u32 + 8 <= mem.len() && (word_at(mem, tp as u32 + 4) == 0 || word_at(
            mem,
            tp as u32 + 4,
        ) >= mem.len()) ==> thrown_name(mem, tp) == "<name_ptr=0x"@ + hex(
            word_at(mem, tp as u32 + 4),
        ) + " out of bounds>"@,
{
}

/// A C string is read up to its NUL; one that does not end inside memory is not read.
pub proof fn law_cstring_is_read(mem: Seq<u8>, ptr: i32, n: int)
    requires
        0 <= n,
        forall|i: int|
            ptr as u32 <= i < ptr as u32 + n && i < mem.len() ==> #[trigger] mem[i] != 0,
    ensures
        ptr as u32 + n < mem.len() && mem[ptr as u32 + n] == 0 ==> cstr_at(mem, ptr) == Some(
            mem.subrange(ptr as u32 as int, ptr as u32 + n),
        ),
        ptr as u32 + n >= mem.len() ==> cstr_at(mem, ptr) is None,
{
    law_nul_is_first(mem, ptr as u32 as int);
}

/// The index of the first NUL byte from `start` on.
fn find_nul(mem: &[u8], start: usize) -> (r: Option<usize>)
    ensures
        match nul_from(mem@, start as int) {
            Some(end) => r is Some && r->0 == end && start <= end < mem@.len(),
            None => r is None,
        },
{
    let n: usize = mem.len();
    let mut i: usize = start;
    while i < n
        invariant
            start <= i,
            n == mem@.len(),
            nul_from(mem@, start as int) == nul_from(mem@, i as int),
        decreases n - i,
    {
        if mem[i] == 0 {
            return Some(i);
        }
        i = i + 1;
    }
    None
}

fn read_thrown_name(mem: &[u8], tp: i32) -> (r: String)
    ensures
        r@ == thrown_name(mem@, tp),
{
    let len: usize = mem.len();
    let base: usize = addr_of(tp);
    let p: usize = if in_range(len, base, 8) {
        u32_at(mem, base + 4) as usize
    } else {
        0
    };
    if p != 0 && p < len {
        match find_nul(mem, p) {
            Some(end) => string_from_utf8_lossy(&mem[p..end]),
            None => {
                let none: Vec<u8> = Vec::new();
                assert(none@ =~= Seq::<u8>::empty());
                string_from_utf8_lossy(&none)
            },
        }
    } else {
        let mut s = "<name_ptr=0x".to_owned();
        push_hex(&mut s, p as u64);
        s.append(" out of bounds>");
        s
    }
}

impl ThrowLog {
    /// A log of no exceptions.
    pub fn new() -> (r: Self)
        ensures
            r@ == (ThrowView { thrown: 0, count: 0, entries: Seq::empty() }),
    {
        let r = ThrowLog { thrown: 0, count: 0, entries: VecDeque::new() };
        assert(r@.entries =~= Seq::<(u64, Seq<char>)>::empty());
        r
    }

    /// Record an exception whose type has the given name.
    pub fn record(&mut self, ptr: i32, name: String)
        ensures
            final(self)@ == old(self)@.with_throw(ptr, name@),
    {
        self.thrown = ptr;
        self.count = self.count.wrapping_add(1);
        let ghost was = self.entries@;
        if self.entries.len() >= THROW_LOG_CAP {
            self.entries.pop_front();
            assert(throw_views(self.entries@) =~= throw_views(was).skip(1));
        }
        let ghost mid = self.entries@;
        let count: u64 = self.count;
        self.entries.push_back((count, name));
        assert(throw_views(self.entries@) =~= throw_views(mid).push((count, name@)));
    }

    /// `__cxa_throw`: record the exception at `ptr`, whose type is described at
    /// `tp`. The guest traps then.
    pub fn cxa_throw(&mut self, mem: &[u8], ptr: i32, tp: i32)
        ensures
            final(self)@ == old(self)@.with_throw(ptr, thrown_name(mem@, tp)),
    {
        let name = read_thrown_name(mem, tp);
        self.record(ptr, name);
    }

    /// `__cxa_find_matching_catch_*`: the exception that is under way.
    pub fn matching_catch(&self) -> (r: i32)
        ensures
            r == self@.thrown,
    {
        self.thrown
    }

    /// How many exceptions were thrown.
    pub fn total(&self) -> (r: u64)
        ensures
            r == self@.count,
    {
        self.count
    }

    /// The latest exception, with its number.
    pub fn last(&self) -> (r: Option<(u64, String)>)
        ensures
            match r {
                None => self@.entries.len() == 0,
                Some(e) => self@.entries.len() > 0 && (e.0, e.1@) == self@.entries.last(),
            },
    {
        let n: usize = self.entries.len();
        if n == 0 {
            None
        } else {
            let e = &self.entries[n - 1];
            Some((e.0, e.1.clone()))
        }
    }
}

/// Where `getentropy` takes its bytes from.
#[derive(Debug, Clone, Copy, PartialEq, Eq, Structural)]
pub enum EntropySource {
    /// A fixed fill, so that a sealed run can be repeated exactly.
    Deterministic,
    /// The operating system, for runs that need real randomness.
    RealOs,
}

/// `getrandom::getrandom`: fill `dest` from the system's random source. `false`
/// if that failed; an empty `dest` never fails. Of the bytes nothing is said:
/// they are random.
#[verifier::external_body]
fn fill_random(dest: &mut [u8]) -> (ok: bool)
    ensures
        final(dest)@.len() == old(dest)@.len(),
        old(dest)@.len() == 0 ==> ok,
{
    getrandom::getrandom(dest).is_ok()
}

/// `getentropy` with the system's random bytes at hand, or `None` if they could
/// not be had: the buffer is filled with `0xAB`, or with those bytes.
pub fn fill_entropy(
    mem: &mut [u8],
    buffer: i32,
    length: i32,
    source: EntropySource,
    random: Option<Vec<u8>>,
) -> (r: i32)
    requires
        random matches Some(v) ==> v@.len() == length as u32,
    ensures
        ({
            let len = length as u32;
            if !guest_range(old(mem)@, buffer, len as int) {
                r == -1 && final(mem)@ == old(mem)@
            } else {
                match source {
                    EntropySource::Deterministic => r == 0 && final(mem)@ == splice(
                        old(mem)@,
                        addr(buffer),
                        Seq::new(len as nat, |i: int| 0xABu8),
                    ),
                    EntropySource::RealOs => match random {
                        Some(v) => r == 0 && final(mem)@ == splice(
                            old(mem)@,
                            addr(buffer),
                            v@,
                        ),
                        None => r == -1 && final(mem)@ == old(mem)@,
                    },
                }
            }
        }),
{
    let start: usize = addr_of(buffer);
    let len: usize = length as u32 as usize;
    if !in_range(mem.len(), start, len) {
        return -1;
    }
    match source {
        EntropySource::Deterministic => {
            let mut fill: Vec<u8> = Vec::new();
            fill.resize(len, 0xAB);
            assert(fill@ =~= Seq::new(len as nat, |i: int| 0xABu8));
            write_at(mem, start, &fill);
            0
        },
        EntropySource::RealOs => match random {
            Some(v) => {
                write_at(mem, start, &v);
                0
            },
            None => -1,
        },
    }
}

/// `getentropy`: fill `length` bytes at `buffer`. Returns 0, or -1 if the buffer
/// leaves memory or the system has no randomness to give. In a deterministic run
/// every byte is `0xAB`; with the system's source only the buffer changes.
pub fn getentropy(mem: &mut [u8], buffer: i32, length: i32, source: EntropySource) -> (r: i32)
    ensures
        ({
            let len = length as u32;
            let old_mem = old(mem)@;
            if !guest_range(old_mem, buffer, len as int) {
                r == -1 && final(mem)@ == old_mem
            } else {
                match source {
                    EntropySource::Deterministic => r == 0 && final(mem)@ == splice(
                        old_mem,
                        addr(buffer),
                        Seq::new(len as nat, |i: int| 0xABu8),
                    ),
                    EntropySource::RealOs => {
                        &&& r == 0 || (r == -1 && len > 0 && final(mem)@ == old_mem)
                        &&& final(mem)@.len() == old_mem.len()
                        &&& forall|i: int|
                            0 <= i < old_mem.len() && !(addr(buffer) <= i < addr(buffer) + len)
                                ==> #[trigger] final(mem)@[i] == old_mem[i]
                    },
                }
            }
        }),
{
    let len: usize = length as u32 as usize;
    if !in_range(mem.len(), addr_of(buffer), len) {
        return -1;
    }
    let random = match source {
        EntropySource::Deterministic => None,
        EntropySource::RealOs => {
            let mut tmp = zero_bytes(len);
            if fill_random(tmp.as_mut_slice()) {
                Some(tmp)
            } else {
                None
            }
        },
    };
    fill_entropy(mem, buffer, length, source, random)
}

/// Memory after the name of the program was stored, as far as there is room for it.
pub open spec fn progname_told(mem: Seq<u8>, buf: i32, len: i32) -> Seq<u8> {
    let name = seq![112u8, 121, 111, 100, 105, 100, 101, 0];
    let n = if len as u32 >= 8 {
        8int
    } else {
        len as u32 as int
    };
    if guest_range(mem, buf, n) {
        splice(mem, addr(buf), name.take(n))
    } else {
        mem
    }
}

/// A guest that gave room for the name of the program reads `pyodide` there as a C
/// string. No byte beyond its room, nor beyond the name, changes.
pub proof fn law_progname_is_told(mem: Seq<u8>, buf: i32, len: i32, i: int)
    requires
        0 <= i < mem.len(),
    ensures
        ({
            let m = progname_told(mem, buf, len);
            let at = buf as u32 as int;
            &&& m.len() == mem.len()
            &&& len as u32 >= 8 && at + 8 <= mem.len() ==> cstr_at(m, buf) == Some(
                encode_utf8("pyodide"@),
            )
            &&& !(at <= i < at + 8 && i < at + len as u32) ==> m[i] == mem[i]
        }),
{
    let m = progname_told(mem, buf, len);
    let at = buf as u32 as int;
    if len as u32 >= 8 && at + 8 <= mem.len() {
        reveal_strlit("pyodide");
        is_ascii_chars_encode_utf8("pyodide"@);
        law_cstring_is_read(m, buf, 7);
        assert(m.subrange(at, at + 7) =~= encode_utf8("pyodide"@));
    }
}

/// `_emscripten_get_progname`: the name of the program, `pyodide` with its NUL,
/// as far as `len` allows, goes to `buf`.
pub fn get_progname(mem: &mut [u8], buf: i32, len: i32)
    ensures
        final(mem)@ == progname_told(old(mem)@, buf, len),
{
    let name = vec![112u8, 121, 111, 100, 105, 100, 101, 0];
    let cap: usize = len as u32 as usize;
    let n: usize = if cap >= 8 {
        8
    } else {
        cap
    };
    assert(name@.subrange(0, n as int) =~= seq![112u8, 121, 111, 100, 105, 100, 101, 0].take(
        n as int,
    ));
    write_bytes(mem, buf, &name[0..n]);
}

/// What a name lookup that fails gives.
pub const EAI_FAIL: i32 = 8;

/// How far a host name without an end is read.
pub const HOST_NAME_MAX: usize = 255;

/// The bytes of the host name at `node`: up to its NUL, or 255 bytes if it has
/// none; `None` outside memory.
pub open spec fn host_bytes(mem: Seq<u8>, node: i32) -> Option<Seq<u8>> {
    let p = addr(node);
    if p >= mem.len() {
        None
    } else {
        match nul_from(mem, p) {
            Some(end) => Some(mem.subrange(p, end)),
            None => if p + HOST_NAME_MAX <= mem.len() {
                Some(mem.subrange(p, p + HOST_NAME_MAX))
            } else {
                None
            },
        }
    }
}

/// The host name that `getaddrinfo` looks up; `None` if it cannot be read, is
/// not UTF-8 or is empty.
pub open spec fn host_name(mem: Seq<u8>, node: i32) -> Option<Seq<char>> {
    match host_bytes(mem, node) {
        Some(bytes) if valid_utf8(bytes) && decode_utf8(bytes).len() > 0 => Some(
            decode_utf8(bytes),
        ),
        _ => None,
    }
}

/// A host name that the guest wrote as a C string in UTF-8 is the one that is looked up;
/// an empty one is none.
pub proof fn law_host_name_is_read(mem: Seq<u8>, node: i32, name: Seq<char>)
    requires
        node as u32 + encode_utf8(name).len() < mem.len(),
        mem.subrange(node as u32 as int, node as u32 + encode_utf8(name).len()) == encode_utf8(name),
        mem[node as u32 + encode_utf8(name).len()] == 0,
        forall|i: int| 0 <= i < encode_utf8(name).len() ==> encode_utf8(name)[i] != 0,
    ensures
        name.len() > 0 ==> host_name(mem, node) == Some(name),
        name.len() == 0 ==> host_name(mem, node) is None,
{
    let p = node as u32 as int;
    let bytes = encode_utf8(name);
    law_nul_is_first(mem, p);
    assert forall|j: int| p <= j < p + bytes.len() implies #[trigger] mem[j] != 0 by {
        assert(mem.subrange(p, p + bytes.len())[j - p] == mem[j]);
    }
    encode_utf8_valid_utf8(name);
    encode_utf8_decode_utf8(name);
    assert(host_bytes(mem, node) == Some(bytes));
}

/// Where no NUL follows, the first 255 bytes are the host name, and it takes that many:
/// where memory ends before, or before the name, none is looked up.
pub proof fn law_endless_host_name_is_cut(mem: Seq<u8>, node: i32)
    requires
        forall|i: int| node as u32 <= i < mem.len() ==> #[trigger] mem[i] != 0,
    ensures
        node as u32 + 255 > mem.len() ==> host_name(mem, node) is None,
        node as u32 + 255 <= mem.len() ==> {
            let text = mem.subrange(node as u32 as int, node as u32 + 255);
            &&& host_bytes(mem, node) matches Some(bytes) && bytes == text
            &&& host_name(mem, node) is Some ==> host_name(mem, node)->0 == decode_utf8(text)
        },
{
    law_nul_is_first(mem, node as u32 as int);
}

/// `getaddrinfo`: the host name at `node` to look up, or the result if there is
/// none: `EAI_FAIL`, as without a policy.
pub fn getaddrinfo_host(mem: &[u8], node: i32, has_policy: bool) -> (r: Result<String, i32>)
    ensures
        match host_name(mem@, node) {
            Some(name) if has_policy => r is Ok && r->Ok_0@ == name,
            _ => r == Err::<String, i32>(EAI_FAIL),
        },
{
    if !has_policy {
        return Err(EAI_FAIL);
    }
    let p: usize = addr_of(node);
    let len: usize = mem.len();
    if p >= len {
        return Err(EAI_FAIL);
    }
    let bytes = match find_nul(mem, p) {
        Some(end) => bytes_at(mem, p, end - p),
        None => {
            if !in_range(len, p, HOST_NAME_MAX) {
                return Err(EAI_FAIL);
            }
            bytes_at(mem, p, HOST_NAME_MAX)
        },
    };
    match string_from_utf8(bytes) {
        None => Err(EAI_FAIL),
        Some(name) => {
            let cs = crate::text::chars_of(name.as_str());
            if cs.len() == 0 {
                Err(EAI_FAIL)
            } else {
                Ok(name)
            }
        },
    }
}

/// An `addrinfo` for a TCP connection over IPv4, whose address stands right
/// behind it, at `sa`.
pub open spec fn addrinfo(sa: u32) -> Seq<u8> {
    le_bytes(0, 4) + le_bytes(2, 4) + le_bytes(1, 4) + le_bytes(6, 4) + le_bytes(16, 4) + le_bytes(
        sa as nat,
        4,
    ) + le_bytes(0, 4) + le_bytes(0, 4)
}

/// Memory after the guest was told an address: an `addrinfo` and the address at the
/// last 512 bytes, and a pointer to it at `res`.
pub open spec fn address_told(mem: Seq<u8>, res: i32, a: Seq<u8>) -> Seq<u8> {
    let at = mem.len() - 512;
    let m = splice(mem, at, addrinfo((at + 32) as u32) + sockaddr_of(a, 0));
    if guest_range(m, res, 4) {
        splice(m, addr(res), le_bytes(at as u32 as nat, 4))
    } else {
        m
    }
}

/// After a lookup that succeeds the pointer at `res` leads to an `addrinfo` inside
/// memory, which says IPv4, stream, TCP and an address of 16 bytes, and which no other
/// one follows. Its pointer leads to a `sockaddr_in` inside memory, which is parsed as
/// the address that was found, with port 0. The place of the result must lie inside
/// memory and outside of what is written; memory has at most 4 GiB.
pub proof fn law_lookup_leads_to_address(mem: Seq<u8>, res: i32, a: Seq<u8>)
    requires
        a.len() == 4,
        512 <= mem.len() <= 0x1_0000_0000,
        res as u32 + 4 <= mem.len(),
        res as u32 + 4 <= mem.len() - 512 || mem.len() - 464 <= res as u32,
    ensures
        ({
            let m = address_told(mem, res, a);
            let ai = word_at(m, res as u32 as int) as int;
            let sa = word_at(m, ai + 20) as int;
            &&& m.len() == mem.len()
            &&& ai + 32 <= m.len()
            &&& word_at(m, ai) == 0
            &&& word_at(m, ai + 4) == 2
            &&& word_at(m, ai + 8) == 1
            &&& word_at(m, ai + 12) == 6
            &&& word_at(m, ai + 16) == 16
            &&& word_at(m, ai + 24) == 0
            &&& word_at(m, ai + 28) == 0
            &&& sa + 16 <= m.len()
            &&& m[sa] == 2 && m[sa + 1] == 0 && m[sa + 2] == 0 && m[sa + 3] == 0
            &&& m.subrange(sa + 4, sa + 8) == a
            &&& sockaddr_in_at(m, sa) == Some((dotted(a), 0u16))
            &&& octets((sockaddr_in_at(m, sa)->0).0) == a
            &&& forall|i: int|
                0 <= i < mem.len() - 512 && !(res as u32 <= i < res as u32 + 4) ==> #[trigger] m[i]
                    == mem[i]
        }),
{
    let at = mem.len() - 512;
    let rec = addrinfo((at + 32) as u32) + sockaddr_of(a, 0);
    let m = splice(mem, at, rec);
    let done = address_told(mem, res, a);
    lemma_le_bytes_len(0, 4);
    lemma_le_bytes_len(2, 4);
    lemma_le_bytes_len(1, 4);
    lemma_le_bytes_len(6, 4);
    lemma_le_bytes_len(16, 4);
    lemma_le_bytes_len((at + 32) as nat, 4);
    lemma_le_bytes_len(at as nat, 4);
    law_sockaddr_fields(a, 0);
    lemma_word_reads_back(m, addr(res), at as nat);
    assert(rec.len() == 48);
    assert(rec.subrange(0, 4) =~= le_bytes(0, 4));
    assert(rec.subrange(4, 8) =~= le_bytes(2, 4));
    assert(rec.subrange(8, 12) =~= le_bytes(1, 4));
    assert(rec.subrange(12, 16) =~= le_bytes(6, 4));
    assert(rec.subrange(16, 20) =~= le_bytes(16, 4));
    assert(rec.subrange(20, 24) =~= le_bytes((at + 32) as nat, 4));
    assert(rec.subrange(24, 28) =~= le_bytes(0, 4));
    assert(rec.subrange(28, 32) =~= le_bytes(0, 4));
    assert(rec.subrange(32, 48) =~= sockaddr_of(a, 0));
    assert(done.subrange(at, at + 48) =~= rec);
    lemma_word_inside(done, at, rec, 0, 0);
    lemma_word_inside(done, at, rec, 4, 2);
    lemma_word_inside(done, at, rec, 8, 1);
    lemma_word_inside(done, at, rec, 12, 6);
    lemma_word_inside(done, at, rec, 16, 16);
    lemma_word_inside(done, at, rec, 20, (at + 32) as nat);
    lemma_word_inside(done, at, rec, 24, 0);
    lemma_word_inside(done, at, rec, 28, 0);
    let sa = at + 32;
    assert forall|i: int| 0 <= i < 16 implies #[trigger] done[sa + i] == sockaddr_of(a, 0)[i] by {
        assert(done.subrange(at, at + 48)[32 + i] == done[sa + i]);
        assert(rec.subrange(32, 48)[i] == rec[32 + i]);
    }
    assert(done[sa + 0] == 2 && done[sa + 1] == 0 && done[sa + 2] == 0 && done[sa + 3] == 0);
    assert(done.subrange(sa + 4, sa + 8) =~= a) by {
        assert forall|i: int| 0 <= i < 4 implies done[sa + 4 + i] == a[i] by {
            assert(done[sa + (4 + i)] == sockaddr_of(a, 0)[4 + i]);
            assert(sockaddr_of(a, 0).subrange(4, 8)[i] == a[i]);
        }
    }
    law_sockaddr_is_read(done, sa);
}

/// A word of a record that stands in memory is read there.
proof fn lemma_word_inside(mem: Seq<u8>, at: int, rec: Seq<u8>, off: int, v: nat)
    requires
        0 <= at,
        at + rec.len() <= mem.len(),
        mem.subrange(at, at + rec.len()) == rec,
        0 <= off,
        off + 4 <= rec.len(),
        rec.subrange(off, off + 4) == le_bytes(v, 4),
        v <= u32::MAX,
    ensures
        word_at(mem, at + off) == v,
{
    reveal_with_fuel(le_limit, 5);
    law_le_round_trip(v, 4);
    assert(mem.subrange(at + off, at + off + 4) =~= mem.subrange(at, at + rec.len()).subrange(
        off,
        off + 4,
    ));
}

/// Complete `getaddrinfo` with the address that was found: an `addrinfo` and its
/// address go to the last 512 bytes of memory, above the guest's heap, and a
/// pointer to it to `res`. `EAI_FAIL` if nothing was found, if there are not four
/// octets between the dots of what was found, or if memory is too small.
pub fn finish_getaddrinfo(mem: &mut [u8], res: i32, found: Option<String>) -> (r: i32)
    ensures
        ({
            let fits = old(mem)@.len() >= 512;
            match found {
                Some(ip) if octets(ip@).len() == 4 && fits => r == 0 && final(mem)@
                    == address_told(old(mem)@, res, octets(ip@)),
                _ => r == EAI_FAIL && final(mem)@ == old(mem)@,
            }
        }),
{
    let ip = match found {
        None => {
            return EAI_FAIL;
        },
        Some(ip) => ip,
    };
    let address = octets_of(ip.as_str());
    if address.len() != 4 {
        return EAI_FAIL;
    }
    let len: usize = mem.len();
    if len < 512 {
        return EAI_FAIL;
    }
    let at: usize = len - 512;
    let mut rec = u32_bytes(0);
    let mut family = u32_bytes(2);
    rec.append(&mut family);
    let mut socktype = u32_bytes(1);
    rec.append(&mut socktype);
    let mut protocol = u32_bytes(6);
    rec.append(&mut protocol);
    let mut addrlen = u32_bytes(16);
    rec.append(&mut addrlen);
    let mut pointer = u32_bytes((at + 32) as u32);
    rec.append(&mut pointer);
    let mut canonname = u32_bytes(0);
    rec.append(&mut canonname);
    let mut next = u32_bytes(0);
    rec.append(&mut next);
    let mut sa = sockaddr_bytes(address, 0);
    rec.append(&mut sa);
    proof {
        lemma_le_bytes_len(0, 4);
        lemma_le_bytes_len(2, 4);
        lemma_le_bytes_len(1, 4);
        lemma_le_bytes_len(6, 4);
        lemma_le_bytes_len(16, 4);
        lemma_le_bytes_len((at + 32) as u32 as nat, 4);
        assert(rec@ =~= addrinfo((at + 32) as u32) + sockaddr_of(octets(ip@), 0));
    }
    write_at(mem, at, &rec);
    write_u32(mem, res, at as u32);
    0
}

/// Imports that do nothing, and return 0 if they return something.
pub const ZERO_STUBS: &'static str = "\
    v v __cxa_end_catch _emscripten_runtime_keepalive_clear capture_stderr fail_test \
    pyodide_js_init JsvPromise_Syncify_handleError;\
    v i __cxa_current_primary_exception __cxa_uncaught_exceptions emscripten_promise_create \
    _Py_emscripten_runtime _Py_CheckEmscriptenSignals_Helper _PyEM_detect_type_reflection \
    can_run_sync_js;\
    i v emscripten_promise_destroy __hiwire_deduplicate_delete;\
    i i getprotobyname freeaddrinfo _emscripten_lookup_name _PyEM_CountFuncParams \
    __hiwire_deduplicate_new __hiwire_deduplicate_get proxy_cache_get;\
    ii v __call_sighandler hiwire_invalid_ref __hiwire_deduplicate_set proxy_cache_set;\
    iii v emscripten_promise_resolve;\
    iii i emscripten_asm_const_int;\
    iiii v __assert_fail;\
    iiii i strftime;\
    iiiii i strftime_l";

/// Imports that return 1.
pub const ONE_STUBS: &'static str = "\
    v i _emscripten_get_now_is_monotonic jslib_init_js jslib_init_buffers_js;\
    iiiiiii i getnameinfo";

/// Imports that return -1.
pub const MINUS_ONE_STUBS: &'static str = "\
    i i _emscripten_system;\
    id i _setitimer_js";

/// Imports that trap.
pub const TRAP_STUBS: &'static str = "\
    v v __cxa_rethrow emscripten_exit_with_live_runtime _emscripten_throw_longjmp throw_no_gil;\
    i v __cxa_rethrow_primary_exception exit __resumeException";

/// The imports that do nothing, with their signatures.
pub fn zero_stubs() -> (r: Vec<ImportSig>)
    ensures
        sig_views(r@) == table_sigs(ZERO_STUBS@),
{
    read_table(ZERO_STUBS)
}

/// The imports that return 1, with their signatures.
pub fn one_stubs() -> (r: Vec<ImportSig>)
    ensures
        sig_views(r@) == table_sigs(ONE_STUBS@),
{
    read_table(ONE_STUBS)
}

/// The imports that return -1, with their signatures.
pub fn minus_one_stubs() -> (r: Vec<ImportSig>)
    ensures
        sig_views(r@) == table_sigs(MINUS_ONE_STUBS@),
{
    read_table(MINUS_ONE_STUBS)
}

/// The imports that trap, with their signatures.
pub fn trap_stubs() -> (r: Vec<ImportSig>)
    ensures
        sig_views(r@) == table_sigs(TRAP_STUBS@),
{
    read_table(TRAP_STUBS)
}

} // verus!
