//! The runtime around a guest: call logs, the memory configuration, and the
//! rules by which imports are filled in and indirect calls dispatched.

use std::collections::VecDeque;

use vstd::prelude::*;

use crate::emscripten_fs::sort_host_entries;
use crate::fs_listing::entry_views;
use crate::ring::{last_of, ring_push};
use crate::text::{
    all_digits, concat, decimal, digit_value, digits_value, law_decimal_reads_back,
    lemma_text_before_total, opt_text, push_decimal, text_before, trim_text, trimmed,
    trimmed_end, trimmed_front,
};

verus! {

/// How many entries a call log keeps.
pub const MECH_RING_CAP: usize = 64;

/// One recorded `env.*` call.
#[derive(Clone, Copy, Debug)]
pub struct MechCallEntry {
    /// The function name (e.g. `"__syscall_openat"`).
    pub name: &'static str,
    /// First integer argument (fd / dirfd / path ptr), or 0 when not applicable.
    pub arg0: i32,
    /// Second integer argument, or 0 when not applicable.
    pub arg1: i32,
}

impl View for MechCallEntry {
    type V = (Seq<char>, i32, i32);

    open spec fn view(&self) -> (Seq<char>, i32, i32) {
        (self.name@, self.arg0, self.arg1)
    }
}

/// The latest `env.*` calls.
pub struct MechCallLog {
    ring: VecDeque<MechCallEntry>,
}

spec fn call_views(s: Seq<MechCallEntry>) -> Seq<(Seq<char>, i32, i32)> {
    Seq::new(s.len(), |i: int| s[i]@)
}

impl View for MechCallLog {
    type V = Seq<(Seq<char>, i32, i32)>;

    closed spec fn view(&self) -> Seq<(Seq<char>, i32, i32)> {
        call_views(self.ring@)
    }
}

impl MechCallLog {
    /// Create a new, empty log.
    pub fn new() -> (r: Self)
        ensures
            r@ == Seq::<(Seq<char>, i32, i32)>::empty(),
    {
        let r = MechCallLog { ring: VecDeque::new() };
        assert(r@ =~= Seq::<(Seq<char>, i32, i32)>::empty());
        r
    }

    /// Record one call. Keeps only the last `MECH_RING_CAP` entries.
    pub fn push(&mut self, name: &'static str, arg0: i32, arg1: i32)
        ensures
            final(self)@ == ring_push(old(self)@, (name@, arg0, arg1), MECH_RING_CAP as nat),
    {
        let ghost was = self.ring@;
        if self.ring.len() >= MECH_RING_CAP {
            self.ring.pop_front();
            assert(call_views(self.ring@) =~= call_views(was).skip(1));
        }
        let ghost mid = self.ring@;
        self.ring.push_back(MechCallEntry { name, arg0, arg1 });
        assert(call_views(self.ring@) =~= call_views(mid).push((name@, arg0, arg1)));
    }

    /// Return the last `n` entries in chronological order.
    pub fn tail(&self, n: usize) -> (r: Vec<MechCallEntry>)
        ensures
            Seq::new(r@.len(), |i: int| r@[i]@) == last_of(self@, n as nat),
    {
        let len: usize = self.ring.len();
        let skip: usize = if n >= len {
            0
        } else {
            len - n
        };
        let mut out: Vec<MechCallEntry> = Vec::new();
        let mut i: usize = skip;
        while i < len
            invariant
                skip <= i <= len,
                len == self.ring@.len(),
                out@.len() == i - skip,
                forall|k: int| 0 <= k < i - skip ==> #[trigger] out@[k] == self.ring@[k + skip],
            decreases len - i,
        {
            out.push(self.ring[i]);
            i = i + 1;
        }
        assert(Seq::new(out@.len(), |i: int| out@[i]@) =~= last_of(self@, n as nat));
        out
    }

    /// How many entries the log holds.
    pub fn len(&self) -> (r: usize)
        ensures
            r == self@.len(),
    {
        self.ring.len()
    }

    /// Returns true if no entries have been recorded.
    pub fn is_empty(&self) -> (r: bool)
        ensures
            r == (self@.len() == 0),
    {
        self.ring.len() == 0
    }
}

/// The latest calls that reached a filled-in import, by name.
pub struct NoopCallLog {
    ring: VecDeque<String>,
}

/// The texts of some strings.
pub open spec fn names_of(s: Seq<String>) -> Seq<Seq<char>> {
    Seq::new(s.len(), |i: int| s[i]@)
}

impl View for NoopCallLog {
    type V = Seq<Seq<char>>;

    closed spec fn view(&self) -> Seq<Seq<char>> {
        names_of(self.ring@)
    }
}

impl NoopCallLog {
    /// Create an empty log.
    pub fn new() -> (r: Self)
        ensures
            r@ == Seq::<Seq<char>>::empty(),
    {
        let r = NoopCallLog { ring: VecDeque::new() };
        assert(r@ =~= Seq::<Seq<char>>::empty());
        r
    }

    /// Record one call. Keeps only the last `MECH_RING_CAP` names.
    pub fn record(&mut self, name: &str)
        ensures
            final(self)@ == ring_push(old(self)@, name@, MECH_RING_CAP as nat),
    {
        let ghost was = self.ring@;
        if self.ring.len() >= MECH_RING_CAP {
            self.ring.pop_front();
            assert(names_of(self.ring@) =~= names_of(was).skip(1));
        }
        let ghost mid = self.ring@;
        self.ring.push_back(name.to_owned());
        assert(names_of(self.ring@) =~= names_of(mid).push(name@));
    }

    /// Return all recorded calls in chronological order.
    pub fn snapshot(&self) -> (r: Vec<String>)
        ensures
            names_of(r@) == self@,
    {
        let n: usize = self.ring.len();
        let mut out: Vec<String> = Vec::new();
        let mut i: usize = 0;
        while i < n
            invariant
                i <= n,
                n == self.ring@.len(),
                out@.len() == i,
                forall|k: int| 0 <= k < i ==> (#[trigger] out@[k])@ == self.ring@[k]@,
            decreases n - i,
        {
            out.push(self.ring[i].clone());
            i = i + 1;
        }
        assert(names_of(out@) =~= self@);
        out
    }
}

/// A concurrent hash map of `kovan_map` from names to counts.
#[verifier::external_body]
pub struct NameMap {
    inner: kovan_map::HashMap<String, u64>,
}

/// What a map from names to counts holds.
pub uninterp spec fn name_entries(m: NameMap) -> Map<Seq<char>, u64>;

/// The contents of a map that holds nothing.
pub open spec fn no_names() -> Map<Seq<char>, u64> {
    Map::empty()
}

/// `kovan_map::HashMap::new`: an empty map.
#[verifier::external_body]
fn empty_names() -> (r: NameMap)
    ensures
        name_entries(r) == no_names(),
{
    NameMap { inner: kovan_map::HashMap::new() }
}

/// `kovan_map::HashMap::get_or_insert`: a name that is not there yet gets the
/// given count; a name that is there keeps its own. Returns the count that the
/// name has then.
#[verifier::external_body]
fn claim_name(m: &mut NameMap, name: String, count: u64) -> (r: u64)
    ensures
        name_entries(*final(m)) == if name_entries(*old(m)).contains_key(name@) {
            name_entries(*old(m))
        } else {
            name_entries(*old(m)).insert(name@, count)
        },
        r == name_entries(*final(m))[name@],
{
    m.inner.get_or_insert(name, count)
}

/// `kovan_map::HashMap::iter`: every name once, in no particular order.
#[verifier::external_body]
fn all_names(m: &NameMap) -> (r: Vec<String>)
    ensures
        names_of(r@).no_duplicates(),
        names_of(r@).to_set() == name_entries(*m).dom(),
{
    m.inner.iter().map(|(k, _v)| k).collect()
}

/// The imports that were called and not implemented, and how many such calls
/// there were.
pub struct JsFfiCallLog {
    names: NameMap,
    total: usize,
}

/// What a [`JsFfiCallLog`] holds.
#[verifier::ext_equal]
pub struct JsFfiCallView {
    /// The names that were called.
    pub names: Set<Seq<char>>,
    /// The number of calls, repeated ones included, up to where it wraps.
    pub total: usize,
}

impl View for JsFfiCallLog {
    type V = JsFfiCallView;

    closed spec fn view(&self) -> JsFfiCallView {
        JsFfiCallView { names: name_entries(self.names).dom(), total: self.total }
    }
}

impl JsFfiCallLog {
    /// Create an empty log.
    pub fn new() -> (r: Self)
        ensures
            r@ == (JsFfiCallView { names: Set::empty(), total: 0 }),
    {
        let r = JsFfiCallLog { names: empty_names(), total: 0 };
        assert(r@.names =~= Set::<Seq<char>>::empty());
        r
    }

    /// Record one call to `name`.
    pub fn record(&mut self, name: &str)
        ensures
            final(self)@ == (JsFfiCallView {
                names: old(self)@.names.insert(name@),
                total: old(self)@.total.wrapping_add(1),
            }),
    {
        self.total = self.total.wrapping_add(1);
        let _ = claim_name(&mut self.names, name.to_owned(), 1);
        assert(self@.names =~= old(self)@.names.insert(name@));
    }

    /// Return all recorded function names, sorted.
    pub fn snapshot(&self) -> (r: Vec<String>)
        ensures
            names_of(r@).to_set() == self@.names,
            forall|i: int, j: int|
                0 <= i < j < r@.len() ==> text_before((#[trigger] r@[i])@, (#[trigger] r@[j])@),
    {
        sort_names(all_names(&self.names))
    }

    /// Total number of calls recorded (including repeated calls).
    pub fn total_calls(&self) -> (r: usize)
        ensures
            r == self@.total,
    {
        self.total
    }
}

/// Put names that differ from each other in order.
fn sort_names(names: Vec<String>) -> (r: Vec<String>)
    requires
        names_of(names@).no_duplicates(),
    ensures
        names_of(r@).to_set() == names_of(names@).to_set(),
        forall|i: int, j: int|
            0 <= i < j < r@.len() ==> text_before((#[trigger] r@[i])@, (#[trigger] r@[j])@),
{
    broadcast use vstd::seq_lib::group_to_multiset_ensures;

    let n: usize = names.len();
    let mut tagged: Vec<(String, bool)> = Vec::new();
    let mut i: usize = 0;
    while i < n
        invariant
            i <= n,
            n == names@.len(),
            tagged@.len() == i,
            forall|k: int|
                0 <= k < i ==> (#[trigger] tagged@[k]).0@ == names@[k]@ && !tagged@[k].1,
        decreases n - i,
    {
        tagged.push((names[i].clone(), false));
        i = i + 1;
    }
    let ghost src = entry_views(tagged@);
    proof {
        assert forall|a: int, b: int| 0 <= a < src.len() && 0 <= b < src.len() && a != b implies src[a]
            != src[b] by {
            assert(names_of(names@)[a] != names_of(names@)[b]);
        }
        src.lemma_multiset_has_no_duplicates();
    }
    let sorted = sort_host_entries(tagged);
    let ghost dst = entry_views(sorted@);
    proof {
        dst.lemma_multiset_has_no_duplicates_conv();
        assert forall|x: (Seq<char>, bool)| src.contains(x) <==> dst.contains(x) by {
            assert(src.to_multiset().count(x) == dst.to_multiset().count(x));
        }
    }
    let total: usize = sorted.len();
    let mut out: Vec<String> = Vec::new();
    let mut j: usize = 0;
    while j < total
        invariant
            j <= total,
            total == sorted@.len(),
            out@.len() == j,
            forall|k: int| 0 <= k < j ==> (#[trigger] out@[k])@ == sorted@[k].0@,
        decreases total - j,
    {
        out.push(sorted[j].0.clone());
        j = j + 1;
    }
    proof {
        assert forall|a: int, b: int| 0 <= a < b < out@.len() implies text_before(
            (#[trigger] out@[a])@,
            (#[trigger] out@[b])@,
        ) by {
            assert(dst[a].0 == out@[a]@ && dst[b].0 == out@[b]@);
            lemma_text_before_total(dst[a].0, dst[b].0);
            lemma_tag(src, dst, a);
            lemma_tag(src, dst, b);
            assert(dst[a] != dst[b]);
        }
        assert forall|t: Seq<char>| names_of(out@).to_set().contains(t) <==> names_of(
            names@,
        ).to_set().contains(t) by {
            if names_of(out@).contains(t) {
                let k = choose|k: int| 0 <= k < out@.len() && names_of(out@)[k] == t;
                lemma_tag(src, dst, k);
                let m = choose|m: int| 0 <= m < src.len() && src[m] == dst[k];
                assert(names_of(names@)[m] == t);
            }
            if names_of(names@).contains(t) {
                let k = choose|k: int| 0 <= k < names@.len() && names_of(names@)[k] == t;
                assert(src[k] == (t, false));
                assert(src.contains((t, false)));
                assert(dst.contains((t, false)));
                let m = choose|m: int| 0 <= m < dst.len() && dst[m] == (t, false);
                assert(names_of(out@)[m] == t);
            }
        }
        assert(names_of(out@).to_set() =~= names_of(names@).to_set());
    }
    out
}

/// What is in the sorted list was in the list.
proof fn lemma_tag(src: Seq<(Seq<char>, bool)>, dst: Seq<(Seq<char>, bool)>, k: int)
    requires
        0 <= k < dst.len(),
        forall|x: (Seq<char>, bool)| src.contains(x) <==> dst.contains(x),
        forall|i: int| 0 <= i < src.len() ==> !(#[trigger] src[i]).1,
    ensures
        src.contains(dst[k]),
        !dst[k].1,
{
    assert(dst.contains(dst[k]));
}

/// Wasm page size: 64 KiB.
pub const WASM_PAGE_BYTES: u64 = 65_536;

/// Hard ceiling imposed by the wasm32 address space: 4 GiB.
pub const WASM32_MAX_BYTES: u64 = 4_294_967_296;

/// Default initial linear memory: 30 MiB.
pub const DEFAULT_MEMORY_INITIAL_BYTES: u64 = 31_457_280;

/// Default maximum linear memory: 4 GiB, the wasm32 address-space ceiling.
pub const DEFAULT_MEMORY_MAX_BYTES: u64 = 4_294_967_296;

/// Default stack size: 10 MiB.
pub const DEFAULT_STACK_SIZE_BYTES: u64 = 10_485_760;

/// Initial linear memory in pages (480 pages = 30 MiB).
pub const WASM_MEMORY_INITIAL_PAGES: u32 = 480;

/// Maximum linear memory in pages (65536 pages = 4 GiB).
pub const WASM_MEMORY_MAX_PAGES: u32 = 65_536;

/// Initial size of the indirect function table: slot 0, which stays empty, and
/// the 6642 slots of the guest's element segment.
pub const WASM_TABLE_INITIAL_SIZE: u32 = 6643;

/// Stack base: the top of the guest's data segment plus the default stack
/// region.
pub const WASM_STACK_BASE: u32 = 15_117_992;

/// Alias of [`WASM_MEMORY_INITIAL_PAGES`].
pub const PYODIDE_MEMORY_INITIAL_PAGES: u32 = WASM_MEMORY_INITIAL_PAGES;

/// Alias of [`WASM_MEMORY_MAX_PAGES`].
pub const PYODIDE_MEMORY_MAX_PAGES: u32 = WASM_MEMORY_MAX_PAGES;

/// Alias of [`WASM_TABLE_INITIAL_SIZE`].
pub const PYODIDE_TABLE_INITIAL_SIZE: u32 = WASM_TABLE_INITIAL_SIZE;

/// Alias of [`WASM_STACK_BASE`].
pub const PYODIDE_STACK_BASE: u32 = WASM_STACK_BASE;

/// Resolved and validated wasm memory configuration.
#[derive(Clone, Copy, Debug)]
pub struct WasmMemoryConfig {
    /// Initial linear memory size in 64-KiB pages.
    pub initial_pages: u32,
    /// Maximum linear memory size in 64-KiB pages.
    pub max_pages: u32,
    /// Stack region size in bytes.
    pub stack_size_bytes: u32,
}

/// The pages that hold `bytes`: `n` pages are enough, and `n - 1` are not.
pub open spec fn pages_for(bytes: u64) -> int {
    (bytes + WASM_PAGE_BYTES - 1) / WASM_PAGE_BYTES as int
}

/// The number of pages is the smallest that holds the bytes.
pub proof fn law_pages_for(bytes: u64)
    requires
        bytes > 0,
    ensures
        bytes <= pages_for(bytes) * WASM_PAGE_BYTES < bytes + WASM_PAGE_BYTES,
{
}

impl WasmMemoryConfig {
    /// `self` is the configuration for memory of `initial` to `max` bytes and a stack of
    /// `stack` bytes.
    pub open spec fn holds(self, initial: u64, max: u64, stack: u64) -> bool {
        &&& self.initial_pages == pages_for(initial)
        &&& self.max_pages == pages_for(max)
        &&& self.stack_size_bytes == stack as u32
    }
}

/// A configuration has just enough pages of 64 KiB for the bytes that were asked for, at
/// first and at most, and the stack that was asked for.
pub proof fn law_config_holds_bytes(c: WasmMemoryConfig, initial: u64, max: u64, stack: u64)
    requires
        c.holds(initial, max, stack),
        config_fault(initial, max, stack) is None,
        stack <= u32::MAX,
    ensures
        initial <= c.initial_pages * 64 * 1024 < initial + 64 * 1024,
        max <= c.max_pages * 64 * 1024 < max + 64 * 1024,
        c.initial_pages <= c.max_pages,
        c.stack_size_bytes == stack,
{
    law_pages_for(initial);
    law_pages_for(max);
    law_config_bounds(initial, max, stack);
}

/// What is wrong with a memory configuration, if anything.
pub open spec fn config_fault(initial: u64, max: u64, stack: u64) -> Option<Seq<char>> {
    if initial == 0 {
        Some("BURN_WASM_MEMORY_INITIAL_BYTES must be > 0"@)
    } else if max == 0 {
        Some("BURN_WASM_MEMORY_MAX_BYTES must be > 0"@)
    } else if stack == 0 {
        Some("BURN_WASM_STACK_SIZE_BYTES must be > 0"@)
    } else if max > WASM32_MAX_BYTES {
        Some(
            "BURN_WASM_MEMORY_MAX_BYTES="@ + decimal(max as nat) + " exceeds wasm32 limit ("@
                + decimal(WASM32_MAX_BYTES as nat) + ")"@,
        )
    } else if initial > max {
        Some(
            "BURN_WASM_MEMORY_INITIAL_BYTES="@ + decimal(initial as nat)
                + " > BURN_WASM_MEMORY_MAX_BYTES="@ + decimal(max as nat),
        )
    } else {
        None
    }
}

/// A memory configuration is accepted exactly if it asks for some initial memory and some
/// stack, for no more than 4 GiB, and for no more at first than at most.
pub proof fn law_config_is_accepted(initial: u64, max: u64, stack: u64)
    ensures
        config_fault(initial, max, stack) is None <==> 0 < initial <= max <= 4 * 1024 * 1024 * 1024
            && 0 < stack,
{
}

/// `bytes` in pages, rounded up.
fn to_pages(bytes: u64) -> (r: u32)
    requires
        bytes <= WASM32_MAX_BYTES,
    ensures
        r == pages_for(bytes),
{
    let n: u64 = (bytes + (WASM_PAGE_BYTES - 1)) / WASM_PAGE_BYTES;
    n as u32
}

/// Validate and convert three byte values into a [`WasmMemoryConfig`].
///
/// All three values are in bytes. Validation rules:
/// - initial > 0, max > 0, stack > 0
/// - max <= 4 GiB (wasm32 limit)
/// - initial <= max
pub fn wasm_memory_config_from(initial_bytes: u64, max_bytes: u64, stack_bytes: u64) -> (r: Result<
    WasmMemoryConfig,
    String,
>)
    ensures
        match config_fault(initial_bytes, max_bytes, stack_bytes) {
            Some(message) => r is Err && r->Err_0@ == message,
            None => {
                &&& r is Ok
                &&& r->Ok_0.holds(initial_bytes, max_bytes, stack_bytes)
            },
        },
{
    if initial_bytes == 0 {
        return Err("BURN_WASM_MEMORY_INITIAL_BYTES must be > 0".to_owned());
    }
    if max_bytes == 0 {
        return Err("BURN_WASM_MEMORY_MAX_BYTES must be > 0".to_owned());
    }
    if stack_bytes == 0 {
        return Err("BURN_WASM_STACK_SIZE_BYTES must be > 0".to_owned());
    }
    if max_bytes > WASM32_MAX_BYTES {
        let mut s = "BURN_WASM_MEMORY_MAX_BYTES=".to_owned();
        push_decimal(&mut s, max_bytes);
        s.append(" exceeds wasm32 limit (");
        push_decimal(&mut s, WASM32_MAX_BYTES);
        s.append(")");
        return Err(s);
    }
    if initial_bytes > max_bytes {
        let mut s = "BURN_WASM_MEMORY_INITIAL_BYTES=".to_owned();
        push_decimal(&mut s, initial_bytes);
        s.append(" > BURN_WASM_MEMORY_MAX_BYTES=");
        push_decimal(&mut s, max_bytes);
        return Err(s);
    }
    Ok(
        WasmMemoryConfig {
            initial_pages: to_pages(initial_bytes),
            max_pages: to_pages(max_bytes),
            stack_size_bytes: stack_bytes as u32,
        },
    )
}

/// A configuration that is accepted has at least one page, no more than the
/// address space holds, and room to grow from the initial to the maximal size.
pub proof fn law_config_bounds(initial: u64, max: u64, stack: u64)
    requires
        config_fault(initial, max, stack) is None,
    ensures
        1 <= pages_for(initial) <= pages_for(max) <= WASM_MEMORY_MAX_PAGES,
{
}

/// How the `Debug` format of std shows a text.
pub uninterp spec fn quoted(s: Seq<char>) -> Seq<char>;

/// `format!` with the `Debug` format: the text in quotes, with escapes. The
/// result is only named.
#[verifier::external_body]
fn quote_text(s: &str) -> (r: String)
    ensures
        r@ == quoted(s@),
{
    format!("{s:?}")
}

/// The digits of an unsigned number: all of the text but a plus sign in front.
pub open spec fn number_digits(s: Seq<char>) -> Seq<char> {
    if s.len() > 0 && s[0] == '+' {
        s.skip(1)
    } else {
        s
    }
}

/// The unsigned 64-bit number that a text stands for: an optional plus sign and
/// decimal digits, no more than fit.
pub open spec fn number(s: Seq<char>) -> Option<u64> {
    let d = number_digits(s);
    if d.len() > 0 && all_digits(d) && digits_value(d) <= u64::MAX {
        Some(digits_value(d) as u64)
    } else {
        None
    }
}

/// What the `Display` format of std says about a text that is no unsigned 64-bit
/// number.
pub uninterp spec fn number_fault(s: Seq<char>) -> Seq<char>;

/// `u64::from_str`: the number, if the text is an optional plus sign followed by
/// decimal digits and the number fits; otherwise an error whose message is only
/// named.
#[verifier::external_body]
fn parse_number(s: &str) -> (r: Result<u64, String>)
    ensures
        r is Ok <==> number(s@) is Some,
        r matches Ok(v) ==> number(s@) == Some(v),
        r matches Err(e) ==> e@ == number_fault(s@),
{
    s.parse::<u64>().map_err(|e| e.to_string())
}

/// What the setting `name` with the text `shown` amounts to, given how its text
/// was read as a number.
pub fn setting_read(name: &str, shown: &str, read: Result<u64, String>) -> (r: Result<u64, String>)
    ensures
        match read {
            Ok(v) => r == Ok::<u64, String>(v),
            Err(e) => r is Err && r->Err_0@ == name@ + "="@ + shown@
                + " is not a valid u64: "@ + e@,
        },
{
    match read {
        Ok(v) => Ok(v),
        Err(e) => {
            let mut s = concat(name, "=");
            s.append(shown);
            s.append(" is not a valid u64: ");
            s.append(e.as_str());
            Err(s)
        },
    }
}

/// The value of the setting `name`: the default if it has no text, else the
/// number that the text stands for, white space at its ends aside.
pub open spec fn setting_value(name: Seq<char>, text: Option<Seq<char>>, default: u64) -> Result<
    u64,
    Seq<char>,
> {
    match text {
        Some(t) if t.len() > 0 => match number(trimmed(t)) {
            Some(v) => Ok(v),
            None => Err(
                name + "="@ + quoted(t) + " is not a valid u64: "@ + number_fault(trimmed(t)),
            ),
        },
        _ => Ok(default),
    }
}

/// A setting without text has its default. One that is written as a decimal number, also
/// behind a plus sign, has that number.
pub proof fn law_setting_reads_number(name: Seq<char>, n: u64, default: u64)
    ensures
        setting_value(name, None, default) == Ok::<u64, Seq<char>>(default),
        setting_value(name, Some(Seq::empty()), default) == Ok::<u64, Seq<char>>(default),
        setting_value(name, Some(decimal(n as nat)), default) == Ok::<u64, Seq<char>>(n),
        setting_value(name, Some(seq!['+'] + decimal(n as nat)), default) == Ok::<u64, Seq<char>>(n),
        setting_value(name, Some(seq![' '] + decimal(n as nat)), default) == Ok::<u64, Seq<char>>(n),
        setting_value(name, Some(decimal(n as nat).push('\n')), default) == Ok::<u64, Seq<char>>(n),
{
    let d = decimal(n as nat);
    law_decimal_reads_back(n as nat);
    assert('0' <= d[0] <= '9');
    assert('0' <= d[d.len() - 1] <= '9');
    assert(all_digits(d)) by {
        assert forall|i: int| 0 <= i < d.len() implies 0 <= digit_value(#[trigger] d[i]) <= 9 by {
            assert('0' <= d[i] <= '9');
        }
    }
    lemma_bare_number(d);
    let plus = seq!['+'] + d;
    assert(plus.skip(1) =~= d);
    lemma_bare_number(plus);
    let blank = seq![' '] + d;
    assert(blank.skip(1) =~= d);
    assert(trimmed_front(blank) == trimmed_front(d));
    let broken = d.push('\n');
    assert(broken.drop_last() =~= d);
    assert(trimmed_front(broken) == broken);
    assert(trimmed_end(broken) == trimmed_end(d));
}

/// Text that neither begins nor ends with white space is not trimmed.
proof fn lemma_bare_number(s: Seq<char>)
    requires
        s.len() > 0,
        !crate::text::is_white(s[0]),
        !crate::text::is_white(s.last()),
    ensures
        trimmed(s) == s,
        trimmed_front(s) == s,
        trimmed_end(s) == s,
{
}

/// Whether `r` is the outcome `want`, errors compared by their text.
pub open spec fn same_outcome(r: Result<u64, String>, want: Result<u64, Seq<char>>) -> bool {
    match want {
        Ok(v) => r == Ok::<u64, String>(v),
        Err(e) => r is Err && r->Err_0@ == e,
    }
}

/// Read the value of the setting `name`.
pub fn setting(name: &str, text: &Option<String>, default: u64) -> (r: Result<u64, String>)
    ensures
        same_outcome(
            r,
            setting_value(
                name@,
                match *text {
                    Some(t) => Some(t@),
                    None => None,
                },
                default,
            ),
        ),
{
    match text {
        None => Ok(default),
        Some(t) => {
            let cs = crate::text::chars_of(t.as_str());
            if cs.len() == 0 {
                return Ok(default);
            }
            let plain = trim_text(t.as_str());
            let shown = quote_text(t.as_str());
            setting_read(name, shown.as_str(), parse_number(plain.as_str()))
        },
    }
}

/// The memory configuration that the settings amount to. Settings that are
/// absent or empty fall back to the defaults; the first one that is wrong is
/// reported.
pub fn wasm_memory_config(
    initial: Option<String>,
    max: Option<String>,
    stack: Option<String>,
) -> (r: Result<WasmMemoryConfig, String>)
    ensures
        ({
            let i = setting_value(
                "BURN_WASM_MEMORY_INITIAL_BYTES"@,
                opt_text(initial),
                DEFAULT_MEMORY_INITIAL_BYTES,
            );
            let m = setting_value(
                "BURN_WASM_MEMORY_MAX_BYTES"@,
                opt_text(max),
                DEFAULT_MEMORY_MAX_BYTES,
            );
            let s = setting_value(
                "BURN_WASM_STACK_SIZE_BYTES"@,
                opt_text(stack),
                DEFAULT_STACK_SIZE_BYTES,
            );
            match (i, m, s) {
                (Err(e), _, _) => r is Err && r->Err_0@ == e,
                (_, Err(e), _) => r is Err && r->Err_0@ == e,
                (_, _, Err(e)) => r is Err && r->Err_0@ == e,
                (Ok(i), Ok(m), Ok(s)) => match config_fault(i, m, s) {
                    Some(message) => r is Err && r->Err_0@ == message,
                    None => {
                        &&& r is Ok
                        &&& r->Ok_0.holds(i, m, s)
                    },
                },
            }
        }),
{
    let i: u64 = match setting(
        "BURN_WASM_MEMORY_INITIAL_BYTES",
        &initial,
        DEFAULT_MEMORY_INITIAL_BYTES,
    ) {
        Err(e) => {
            return Err(e);
        },
        Ok(v) => v,
    };
    let m: u64 = match setting("BURN_WASM_MEMORY_MAX_BYTES", &max, DEFAULT_MEMORY_MAX_BYTES) {
        Err(e) => {
            return Err(e);
        },
        Ok(v) => v,
    };
    let s: u64 = match setting("BURN_WASM_STACK_SIZE_BYTES", &stack, DEFAULT_STACK_SIZE_BYTES) {
        Err(e) => {
            return Err(e);
        },
        Ok(v) => v,
    };
    wasm_memory_config_from(i, m, s)
}

/// The kinds of references that a value can be.
#[derive(Clone, Copy, Debug, PartialEq, Eq, Structural)]
pub enum RefKind {
    Func,
    Extern,
    Any,
    Exn,
}

/// The declared type of a parameter or result.
#[derive(Clone, Copy, Debug, PartialEq, Eq, Structural)]
pub enum ValType {
    I32,
    I64,
    F32,
    F64,
    V128,
    Ref { kind: RefKind, nullable: bool },
}

/// A value on its way into or out of a guest function. Floats are held by their
/// bits, references by a handle of the embedding; `None` is the null reference.
#[derive(Clone, Copy, Debug, PartialEq, Eq, Structural)]
pub enum Val {
    I32(i32),
    I64(i64),
    F32(u32),
    F64(u64),
    V128(u128),
    Ref { kind: RefKind, handle: Option<u64> },
}

/// The zero or null of a type. A reference type without null has none of its
/// own and gets the null function reference.
pub open spec fn default_of(vt: ValType) -> Val {
    match vt {
        ValType::I32 => Val::I32(0),
        ValType::I64 => Val::I64(0),
        ValType::F32 => Val::F32(0),
        ValType::F64 => Val::F64(0),
        ValType::V128 => Val::V128(0),
        ValType::Ref { kind, nullable } => if nullable {
            Val::Ref { kind, handle: None }
        } else {
            Val::Ref { kind: RefKind::Func, handle: None }
        },
    }
}

/// The default of a type is a value of that type: the number 0, or the null reference.
/// Only a reference that cannot be null has none, and gets the null function reference.
pub proof fn law_default_is_of_its_type(vt: ValType)
    ensures
        match (vt, default_of(vt)) {
            (ValType::I32, Val::I32(v)) => v == 0,
            (ValType::I64, Val::I64(v)) => v == 0,
            (ValType::F32, Val::F32(v)) => v == 0,
            (ValType::F64, Val::F64(v)) => v == 0,
            (ValType::V128, Val::V128(v)) => v == 0,
            (ValType::Ref { kind, nullable }, Val::Ref { kind: k, handle }) => handle is None && (
            k == kind || !nullable) && (nullable || k == RefKind::Func),
            _ => false,
        },
{
}

/// Return the correct zero/null [`Val`] for a declared [`ValType`]. It goes by
/// the declared type, not by what a result slot happens to hold.
pub fn default_val_for(vt: &ValType) -> (r: Val)
    ensures
        r == default_of(*vt),
{
    match vt {
        ValType::I32 => Val::I32(0),
        ValType::I64 => Val::I64(0),
        ValType::F32 => Val::F32(0),
        ValType::F64 => Val::F64(0),
        ValType::V128 => Val::V128(0),
        ValType::Ref { kind, nullable } => if *nullable {
            Val::Ref { kind: *kind, handle: None }
        } else {
            Val::Ref { kind: RefKind::Func, handle: None }
        },
    }
}

/// What a call's argument `i` is noted with: its value, or 0 if there is no such
/// argument or it is no 32-bit integer.
pub open spec fn noted_arg(args: Seq<Val>, i: int) -> i32 {
    if i < args.len() {
        match args[i] {
            Val::I32(v) => v,
            _ => 0,
        }
    } else {
        0
    }
}

fn arg_to_note(args: &Vec<Val>, i: usize) -> (r: i32)
    ensures
        r == noted_arg(args@, i as int),
{
    if i < args.len() {
        match args[i] {
            Val::I32(v) => v,
            _ => 0,
        }
    } else {
        0
    }
}

impl MechCallLog {
    /// Record one call by its name and its first two arguments.
    pub fn note_call(&mut self, name: &'static str, args: &Vec<Val>)
        ensures
            final(self)@ == ring_push(
                old(self)@,
                (name@, noted_arg(args@, 0), noted_arg(args@, 1)),
                MECH_RING_CAP as nat,
            ),
    {
        self.push(name, arg_to_note(args, 0), arg_to_note(args, 1));
    }
}

/// What a filled-in import returns: the default of each declared result.
pub fn default_results(types: &Vec<ValType>) -> (r: Vec<Val>)
    ensures
        r@ == Seq::new(types@.len(), |i: int| default_of(types@[i])),
{
    let n: usize = types.len();
    let mut out: Vec<Val> = Vec::new();
    let mut i: usize = 0;
    while i < n
        invariant
            i <= n,
            n == types@.len(),
            out@ == Seq::new(i as nat, |k: int| default_of(types@[k])),
        decreases n - i,
    {
        out.push(default_val_for(&types[i]));
        i = i + 1;
    }
    out
}

/// The table slot that a trampoline call goes to: its first parameter, if that
/// is an integer.
pub fn invoke_index(params: &Vec<Val>) -> (r: Option<u64>)
    ensures
        r == if params@.len() > 0 {
            match params@[0] {
                Val::I32(i) => Some(i as u64),
                _ => None,
            }
        } else {
            None
        },
{
    if params.len() == 0 {
        return None;
    }
    match params[0] {
        Val::I32(i) => Some(i as u64),
        _ => None,
    }
}

/// The arguments that a callee with the declared parameters gets from a
/// trampoline call: what follows the slot index, cut off or filled up with
/// defaults to exactly as many as are declared.
pub open spec fn forwarded(declared: Seq<ValType>, params: Seq<Val>) -> Seq<Val> {
    Seq::new(
        declared.len(),
        |i: int|
            if i + 1 < params.len() {
                params[i + 1]
            } else {
                default_of(declared[i])
            },
    )
}

/// A callee that declares as many parameters as were forwarded gets just those,
/// and one that declares fewer gets the first of them.
pub proof fn law_forwarded_prefix(declared: Seq<ValType>, params: Seq<Val>)
    requires
        params.len() > 0,
        declared.len() <= params.len() - 1,
    ensures
        forwarded(declared, params) == params.skip(1).take(declared.len() as int),
{
    assert(forwarded(declared, params) =~= params.skip(1).take(declared.len() as int));
}

/// A callee that declares more parameters than were forwarded gets those, and the
/// zero or null of its type for each further one.
pub proof fn law_forwarded_padded(declared: Seq<ValType>, params: Seq<Val>, i: int)
    requires
        params.len() > 0,
        params.len() - 1 <= declared.len(),
        params.len() - 1 <= i < declared.len(),
    ensures
        forwarded(declared, params).len() == declared.len(),
        forwarded(declared, params).take(params.len() - 1) == params.skip(1),
        forwarded(declared, params)[i] == default_of(declared[i]),
{
    assert(forwarded(declared, params).take(params.len() - 1) =~= params.skip(1));
}

/// What a trampoline call does with slot `index` of the table: call it with
/// these arguments, or fail with a message that names the slot if it is empty.
pub fn invoke_dispatch(index: u64, slot: &Option<Vec<ValType>>, params: &Vec<Val>) -> (r: Result<
    Vec<Val>,
    String,
>)
    ensures
        match *slot {
            Some(declared) => r is Ok && r->Ok_0@ == forwarded(declared@, params@),
            None => r is Err && r->Err_0@ == "invoke_dispatch: null or absent funcref at table["@
                + decimal(index as nat) + "] (params_len="@ + decimal(params@.len()) + ")"@,
        },
{
    let given: usize = params.len();
    match slot {
        None => {
            let mut s = "invoke_dispatch: null or absent funcref at table[".to_owned();
            push_decimal(&mut s, index);
            s.append("] (params_len=");
            push_decimal(&mut s, given as u64);
            s.append(")");
            Err(s)
        },
        Some(declared) => {
            let n: usize = declared.len();
            let mut out: Vec<Val> = Vec::new();
            let mut i: usize = 0;
            while i < n
                invariant
                    i <= n,
                    n == declared@.len(),
                    given == params@.len(),
                    out@.len() == i,
                    forall|k: int|
                        0 <= k < i ==> #[trigger] out@[k] == forwarded(declared@, params@)[k],
                decreases n - i,
            {
                let v = if given > 0 && i < given - 1 {
                    params[i + 1]
                } else {
                    default_val_for(&declared[i])
                };
                out.push(v);
                i = i + 1;
            }
            assert(out@ =~= forwarded(declared@, params@));
            Ok(out)
        },
    }
}

/// How a trampoline recovers from a callee that failed, so that the guest's
/// landing pad runs: the stack pointer to restore, if one was saved, and the
/// results to hand back, each the zero of its declared type. `setThrew(1, 0)` is
/// called in any case, after the stack pointer was restored.
pub fn invoke_recovery(saved_sp: i32, results: &Vec<ValType>) -> (r: (Option<i32>, Vec<Val>))
    ensures
        r.0 == if saved_sp != 0 {
            Some(saved_sp)
        } else {
            None
        },
        r.1@ == Seq::new(results@.len(), |i: int| default_of(results@[i])),
{
    let restore = if saved_sp != 0 {
        Some(saved_sp)
    } else {
        None
    };
    (restore, default_results(results))
}

/// The full name of an import.
pub open spec fn full_name(module: Seq<char>, name: Seq<char>) -> Seq<char> {
    module + "::"@ + name
}

/// The full name of an import.
pub fn import_name(module: &str, name: &str) -> (r: String)
    ensures
        r@ == full_name(module@, name@),
{
    let mut s = concat(module, "::");
    s.append(name);
    s
}

/// What a call of an import that is not there says.
pub fn trap_label(module: &str, name: &str) -> (r: String)
    ensures
        r@ == "unimplemented import: "@ + full_name(module@, name@),
{
    let mut s = "unimplemented import: ".to_owned();
    let full = import_name(module, name);
    s.append(full.as_str());
    s
}

/// The full names of the imports, up to `n`, that are not known.
pub open spec fn unknown_until(
    imports: Seq<(String, String)>,
    known: Seq<bool>,
    n: int,
) -> Seq<Seq<char>>
    decreases n,
{
    if n <= 0 {
        Seq::empty()
    } else if known[n - 1] {
        unknown_until(imports, known, n - 1)
    } else {
        unknown_until(imports, known, n - 1).push(
            full_name(imports[n - 1].0@, imports[n - 1].1@),
        )
    }
}

/// Every import that is not known, and no other one, is among those to be filled in; they
/// come in the order of the list.
pub proof fn law_unknown_are_listed(imports: Seq<(String, String)>, known: Seq<bool>, n: int, i: int)
    requires
        0 <= i < n <= imports.len(),
        known.len() == imports.len(),
    ensures
        ({
            let all = unknown_until(imports, known, n);
            let front = unknown_until(imports, known, i);
            &&& front.len() <= all.len()
            &&& all.take(front.len() as int) == front
            &&& !known[i] ==> front.len() < all.len() && all[front.len() as int] == imports[i].0@
                + "::"@ + imports[i].1@
            &&& known[i] ==> unknown_until(imports, known, i + 1) == front
            &&& !known[i] ==> unknown_until(imports, known, i + 1).len() == front.len() + 1
        }),
        unknown_until(imports, known, 0).len() == 0,
    decreases n,
{
    let all = unknown_until(imports, known, n);
    let front = unknown_until(imports, known, i);
    if i == n - 1 {
        assert(all.take(front.len() as int) =~= front);
    } else {
        law_unknown_are_listed(imports, known, n - 1, i);
        let prev = unknown_until(imports, known, n - 1);
        assert(all.take(front.len() as int) =~= prev.take(front.len() as int));
    }
}

/// The full names of the imports that have to be filled in, in the order in
/// which the module lists them: those that are not known.
pub fn unknown_imports(imports: &Vec<(String, String)>, known: &Vec<bool>) -> (r: Vec<String>)
    requires
        known@.len() == imports@.len(),
    ensures
        names_of(r@) == unknown_until(imports@, known@, imports@.len() as int),
{
    let n: usize = imports.len();
    let mut out: Vec<String> = Vec::new();
    let mut i: usize = 0;
    assert(names_of(out@) =~= Seq::<Seq<char>>::empty());
    while i < n
        invariant
            i <= n,
            n == imports@.len(),
            n == known@.len(),
            names_of(out@) == unknown_until(imports@, known@, i as int),
        decreases n - i,
    {
        if !known[i] {
            let ghost before = names_of(out@);
            let full = import_name(imports[i].0.as_str(), imports[i].1.as_str());
            out.push(full);
            assert(names_of(out@) =~= before.push(full@));
        }
        i = i + 1;
    }
    out
}

/// A call is noted with its arguments that are 32-bit integers, and with 0 for any other
/// and for one that it does not have.
pub proof fn law_arguments_are_noted(args: Seq<Val>, i: int)
    requires
        0 <= i,
    ensures
        i >= args.len() ==> noted_arg(args, i) == 0,
        i < args.len() && args[i] is I32 ==> args[i] == Val::I32(noted_arg(args, i)),
        i < args.len() && !(args[i] is I32) ==> noted_arg(args, i) == 0,
{
}

/// A text with a character that is no digit, behind a plus sign if it has one, is no
/// number, and neither is one without a digit or one whose digits say more than fits.
pub proof fn law_other_texts_are_no_number(s: Seq<char>, i: int)
    requires
        0 <= i < s.len(),
    ensures
        !('0' <= s[i] <= '9') && (i > 0 || s[i] != '+') ==> number(s) is None,
        number(Seq::empty()) is None,
        number(seq!['+']) is None,
        s[0] != '+' && digits_value(s) > u64::MAX ==> number(s) is None,
{
    if !('0' <= s[i] <= '9') && (i > 0 || s[i] != '+') {
        let d = number_digits(s);
        let k = if s[0] == '+' {
            i - 1
        } else {
            i
        };
        assert(d[k] == s[i]);
    }
    assert(seq!['+'].skip(1) =~= Seq::<char>::empty());
}

} // verus!
