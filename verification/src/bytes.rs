//! Byte-level access to guest linear memory.
//!
//! Guest memory is a flat byte slice. Every multi-byte integer in it is
//! little-endian, and guest pointers are 32-bit addresses that arrive as `i32`.

use vstd::prelude::*;
use vstd::slice::slice_to_vec;

verus! {

/// The `n` low base-256 digits of `v`, least significant first.
pub open spec fn le_bytes(v: nat, n: nat) -> Seq<u8>
    decreases n,
{
    if n == 0 {
        Seq::empty()
    } else {
        seq![(v % 256) as u8] + le_bytes(v / 256, (n - 1) as nat)
    }
}

/// The number whose base-256 digits are `s`, least significant first.
pub open spec fn le_value(s: Seq<u8>) -> nat
    decreases s.len(),
{
    if s.len() == 0 {
        0
    } else {
        s[0] as nat + 256 * le_value(s.skip(1))
    }
}

/// The first value that does not fit in `n` bytes.
pub open spec fn le_limit(n: nat) -> nat
    decreases n,
{
    if n == 0 {
        1
    } else {
        256 * le_limit((n - 1) as nat)
    }
}

/// `s` with the bytes `b` laid over it from index `at`.
pub open spec fn splice(s: Seq<u8>, at: int, b: Seq<u8>) -> Seq<u8> {
    Seq::new(
        s.len(),
        |i: int|
            if at <= i < at + b.len() {
                b[i - at]
            } else {
                s[i]
            },
    )
}

/// `n` zero bytes.
pub open spec fn zeros(n: nat) -> Seq<u8> {
    Seq::new(n, |i: int| 0u8)
}

/// The address a guest pointer denotes: pointers are unsigned 32-bit offsets.
pub open spec fn addr(ptr: i32) -> int {
    ptr as u32 as int
}

/// Whether the `n` bytes from the guest pointer `ptr` lie inside `mem`.
pub open spec fn guest_range(mem: Seq<u8>, ptr: i32, n: int) -> bool {
    addr(ptr) + n <= mem.len()
}

/// The 32-bit word at `at`.
pub open spec fn word_at(s: Seq<u8>, at: int) -> nat {
    le_value(s.subrange(at, at + 4))
}

/// The signed 32-bit word at `at`.
pub open spec fn signed_at(s: Seq<u8>, at: int) -> i32 {
    word_at(s, at) as u32 as i32
}

/// Little-endian encoding keeps the length it was asked for.
pub proof fn lemma_le_bytes_len(v: nat, n: nat)
    ensures
        le_bytes(v, n).len() == n,
    decreases n,
{
    if n > 0 {
        lemma_le_bytes_len(v / 256, (n - 1) as nat);
    }
}

/// Decoding the `n`-byte encoding of a value that fits gives the value back.
pub proof fn law_le_round_trip(v: nat, n: nat)
    requires
        v < le_limit(n),
    ensures
        le_value(le_bytes(v, n)) == v,
    decreases n,
{
    if n > 0 {
        let rest = le_bytes(v / 256, (n - 1) as nat);
        law_le_round_trip(v / 256, (n - 1) as nat);
        assert(le_bytes(v, n).skip(1) =~= rest);
        assert(le_bytes(v, n)[0] == (v % 256) as u8);
    }
}

/// The digits of a 16-bit value.
pub proof fn lemma_le_bytes_2(v: nat)
    ensures
        le_bytes(v, 2) == seq![(v % 256) as u8, (v / 256 % 256) as u8],
{
    reveal_with_fuel(le_bytes, 3);
    assert(le_bytes(v, 2) =~= seq![(v % 256) as u8, (v / 256 % 256) as u8]);
}

/// The digits of a 32-bit value.
pub proof fn lemma_le_bytes_4(v: nat)
    ensures
        le_bytes(v, 4) == seq![
            (v % 256) as u8,
            (v / 256 % 256) as u8,
            (v / 65536 % 256) as u8,
            (v / 16777216 % 256) as u8,
        ],
{
    reveal_with_fuel(le_bytes, 5);
    assert(v / 256 / 256 == v / 65536);
    assert(v / 65536 / 256 == v / 16777216);
    assert(le_bytes(v, 4) =~= seq![
        (v % 256) as u8,
        (v / 256 % 256) as u8,
        (v / 65536 % 256) as u8,
        (v / 16777216 % 256) as u8,
    ]);
}

/// The digits of a 64-bit value are those of its two halves.
pub proof fn lemma_le_bytes_8(v: nat)
    ensures
        le_bytes(v, 8) == le_bytes(v % 0x1_0000_0000, 4) + le_bytes(v / 0x1_0000_0000, 4),
{
    reveal_with_fuel(le_bytes, 9);
    let lo = v % 0x1_0000_0000;
    let hi = v / 0x1_0000_0000;
    assert(v / 256 / 256 / 256 / 256 == hi);
    assert(lo % 256 == v % 256);
    assert(lo / 256 % 256 == v / 256 % 256);
    assert(lo / 256 / 256 % 256 == v / 256 / 256 % 256);
    assert(lo / 256 / 256 / 256 % 256 == v / 256 / 256 / 256 % 256);
    assert(le_bytes(v, 8) =~= le_bytes(lo, 4) + le_bytes(hi, 4));
}

/// `n` bytes hold a value modulo the first value that does not fit in them.
pub proof fn law_le_truncates(v: nat, n: nat)
    ensures
        le_limit(n) > 0,
        le_bytes(v % le_limit(n), n) == le_bytes(v, n),
    decreases n,
{
    if n > 0 {
        let m = le_limit((n - 1) as nat);
        law_le_truncates(v / 256, (n - 1) as nat);
        vstd::arithmetic::div_mod::lemma_mod_breakdown(v as int, 256, m as int);
        let lo = v % le_limit(n);
        assert(lo == 256 * ((v / 256) % m) + v % 256);
        assert(lo % 256 == v % 256);
        assert(lo / 256 == (v / 256) % m);
    }
}

/// Two bytes hold a value modulo 2^16.
pub proof fn lemma_low_2(v: nat)
    ensures
        le_bytes(v % 65536, 2) == le_bytes(v, 2),
{
    reveal_with_fuel(le_limit, 3);
    law_le_truncates(v, 2);
}

/// Four bytes hold a value modulo 2^32.
pub proof fn lemma_low_4(v: nat)
    ensures
        le_bytes(v % 0x1_0000_0000, 4) == le_bytes(v, 4),
{
    reveal_with_fuel(le_limit, 5);
    law_le_truncates(v, 4);
}

/// Eight bytes hold a value modulo 2^64.
pub proof fn lemma_low_8(v: nat)
    ensures
        le_bytes(v % 0x1_0000_0000_0000_0000, 8) == le_bytes(v, 8),
{
    reveal_with_fuel(le_limit, 9);
    law_le_truncates(v, 8);
}

/// The value of two digits.
pub proof fn lemma_le_value_2(s: Seq<u8>)
    requires
        s.len() == 2,
    ensures
        le_value(s) == s[0] + 256 * s[1],
{
    reveal_with_fuel(le_value, 3);
    assert(s.skip(1)[0] == s[1]);
}

/// The value of four digits.
pub proof fn lemma_le_value_4(s: Seq<u8>)
    requires
        s.len() == 4,
    ensures
        le_value(s) == s[0] + 256 * s[1] + 65536 * s[2] + 16777216 * s[3],
        le_value(s) < 0x1_0000_0000,
{
    reveal_with_fuel(le_value, 5);
    assert(s.skip(1)[0] == s[1]);
    assert(s.skip(1).skip(1)[0] == s[2]);
    assert(s.skip(1).skip(1).skip(1)[0] == s[3]);
}

/// Laying bytes over a sequence and reading them back gives those bytes.
pub proof fn law_splice_reads_back(s: Seq<u8>, at: int, b: Seq<u8>)
    requires
        0 <= at,
        at + b.len() <= s.len(),
    ensures
        splice(s, at, b).subrange(at, at + b.len()) == b,
        splice(s, at, b).len() == s.len(),
        forall|i: int|
            0 <= i < s.len() && !(at <= i < at + b.len()) ==> #[trigger] splice(s, at, b)[i]
                == s[i],
{
    assert(splice(s, at, b).subrange(at, at + b.len()) =~= b);
}

/// A 32-bit word laid over a sequence is read back.
pub proof fn lemma_word_reads_back(s: Seq<u8>, at: int, v: nat)
    requires
        0 <= at,
        at + 4 <= s.len(),
        v <= u32::MAX,
    ensures
        word_at(splice(s, at, le_bytes(v, 4)), at) == v,
{
    reveal_with_fuel(le_limit, 5);
    lemma_le_bytes_len(v, 4);
    law_splice_reads_back(s, at, le_bytes(v, 4));
    law_le_round_trip(v, 4);
}

/// A 32-bit word is its four bytes, the first of which counts least.
pub proof fn law_word_digits(s: Seq<u8>, at: int)
    requires
        0 <= at,
        at + 4 <= s.len(),
    ensures
        word_at(s, at) == s[at] + 0x100 * s[at + 1] + 0x1_0000 * s[at + 2] + 0x100_0000 * s[at + 3],
        word_at(s, at) <= u32::MAX,
{
    lemma_le_value_4(s.subrange(at, at + 4));
}

/// Laying down two adjacent pieces is laying down their concatenation.
pub proof fn lemma_splice_append(s: Seq<u8>, at: int, a: Seq<u8>, b: Seq<u8>)
    requires
        0 <= at,
    ensures
        splice(splice(s, at, a), at + a.len(), b) == splice(s, at, a + b),
{
    assert(splice(splice(s, at, a), at + a.len(), b) =~= splice(s, at, a + b));
}

/// The address a guest pointer denotes.
pub fn addr_of(ptr: i32) -> (r: usize)
    ensures
        r == addr(ptr),
{
    ptr as u32 as usize
}

/// Whether `n` bytes from `at` lie inside a memory of `len` bytes.
pub fn in_range(len: usize, at: usize, n: usize) -> (r: bool)
    ensures
        r == (at + n <= len),
{
    at <= len && n <= len - at
}

/// Copy `src` over `mem` from `at`.
pub fn write_at(mem: &mut [u8], at: usize, src: &[u8])
    requires
        at + src@.len() <= old(mem)@.len(),
    ensures
        final(mem)@ == splice(old(mem)@, at as int, src@),
{
    let n: usize = src.len();
    let len: usize = mem.len();
    let mut i: usize = 0;
    assert(mem@ =~= splice(mem@, at as int, src@.take(0)));
    while i < n
        invariant
            i <= n,
            n == src@.len(),
            at + n <= len,
            len == old(mem)@.len(),
            mem@ == splice(old(mem)@, at as int, src@.take(i as int)),
        decreases n - i,
    {
        mem[at + i] = src[i];
        i = i + 1;
        assert(mem@ =~= splice(old(mem)@, at as int, src@.take(i as int)));
    }
    assert(src@.take(n as int) =~= src@);
}

/// The two bytes of `v`.
pub fn u16_bytes(v: u16) -> (r: Vec<u8>)
    ensures
        r@ == le_bytes(v as nat, 2),
{
    proof {
        lemma_le_bytes_2(v as nat);
    }
    let r = vec![(v % 256) as u8, (v / 256) as u8];
    assert(r@ =~= le_bytes(v as nat, 2));
    r
}

/// The four bytes of `v`.
pub fn u32_bytes(v: u32) -> (r: Vec<u8>)
    ensures
        r@ == le_bytes(v as nat, 4),
{
    proof {
        lemma_le_bytes_4(v as nat);
    }
    let r = vec![
        (v % 256) as u8,
        (v / 256 % 256) as u8,
        (v / 65536 % 256) as u8,
        (v / 16777216) as u8,
    ];
    assert(r@ =~= le_bytes(v as nat, 4));
    r
}

/// The eight bytes of `v`.
pub fn u64_bytes(v: u64) -> (r: Vec<u8>)
    ensures
        r@ == le_bytes(v as nat, 8),
{
    proof {
        lemma_le_bytes_8(v as nat);
    }
    let mut r = u32_bytes((v % 0x1_0000_0000) as u32);
    let mut hi = u32_bytes((v / 0x1_0000_0000) as u32);
    r.append(&mut hi);
    r
}

/// The 16-bit value at `at`.
pub fn u16_at(mem: &[u8], at: usize) -> (r: u16)
    requires
        at + 2 <= mem@.len(),
    ensures
        r == le_value(mem@.subrange(at as int, at + 2)),
{
    proof {
        lemma_le_value_2(mem@.subrange(at as int, at + 2));
    }
    mem[at] as u16 + 256 * (mem[at + 1] as u16)
}

/// The 32-bit value at `at`.
pub fn u32_at(mem: &[u8], at: usize) -> (r: u32)
    requires
        at + 4 <= mem@.len(),
    ensures
        r == word_at(mem@, at as int),
{
    proof {
        lemma_le_value_4(mem@.subrange(at as int, at + 4));
    }
    mem[at] as u32 + 256 * (mem[at + 1] as u32) + 65536 * (mem[at + 2] as u32) + 16777216 * (
    mem[at + 3] as u32)
}

/// The signed 32-bit value at `at`.
pub fn i32_at(mem: &[u8], at: usize) -> (r: i32)
    requires
        at + 4 <= mem@.len(),
    ensures
        r == signed_at(mem@, at as int),
{
    u32_at(mem, at) as i32
}

/// A signed word written to memory is read back.
pub proof fn law_signed_reads_back(s: Seq<u8>, at: int, v: i32)
    requires
        s.subrange(at, at + 4) == le_bytes(v as u32 as nat, 4),
    ensures
        signed_at(s, at) == v,
{
    reveal_with_fuel(le_limit, 5);
    law_le_round_trip(v as u32 as nat, 4);
    assert(v as u32 as i32 == v) by (bit_vector);
}

/// The `n` bytes from `at`.
pub fn bytes_at(mem: &[u8], at: usize, n: usize) -> (r: Vec<u8>)
    requires
        at + n <= mem@.len(),
    ensures
        r@ == mem@.subrange(at as int, at + n),
{
    let len: usize = mem.len();
    assert(at + n <= len);
    slice_to_vec(&mem[at..at + n])
}

/// Read `len` bytes at the guest pointer `ptr`, or `None` when the range runs
/// past the end of memory.
pub fn read_bytes(mem: &[u8], ptr: i32, len: usize) -> (r: Option<Vec<u8>>)
    ensures
        r is Some <==> guest_range(mem@, ptr, len as int),
        r matches Some(v) ==> v@ == mem@.subrange(addr(ptr), addr(ptr) + len),
{
    let at: usize = addr_of(ptr);
    if !in_range(mem.len(), at, len) {
        return None;
    }
    Some(bytes_at(mem, at, len))
}

/// Write `bytes` at the guest pointer `ptr`. Memory is left alone and `false`
/// returned when the range runs past its end.
pub fn write_bytes(mem: &mut [u8], ptr: i32, bytes: &[u8]) -> (ok: bool)
    ensures
        ok == guest_range(old(mem)@, ptr, bytes@.len() as int),
        final(mem)@ == if ok {
            splice(old(mem)@, addr(ptr), bytes@)
        } else {
            old(mem)@
        },
{
    let at: usize = addr_of(ptr);
    if !in_range(mem.len(), at, bytes.len()) {
        return false;
    }
    write_at(mem, at, bytes);
    true
}

/// Write a 32-bit value at the guest pointer `ptr`.
pub fn write_u32(mem: &mut [u8], ptr: i32, val: u32) -> (ok: bool)
    ensures
        ok == guest_range(old(mem)@, ptr, 4),
        final(mem)@ == if ok {
            splice(old(mem)@, addr(ptr), le_bytes(val as nat, 4))
        } else {
            old(mem)@
        },
{
    proof {
        lemma_le_bytes_len(val as nat, 4);
    }
    let b = u32_bytes(val);
    write_bytes(mem, ptr, &b)
}

/// Write a 64-bit value at the guest pointer `ptr`.
pub fn write_u64(mem: &mut [u8], ptr: i32, val: u64) -> (ok: bool)
    ensures
        ok == guest_range(old(mem)@, ptr, 8),
        final(mem)@ == if ok {
            splice(old(mem)@, addr(ptr), le_bytes(val as nat, 8))
        } else {
            old(mem)@
        },
{
    proof {
        lemma_le_bytes_len(val as nat, 8);
    }
    let b = u64_bytes(val);
    write_bytes(mem, ptr, &b)
}

} // verus!
