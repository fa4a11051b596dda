//! How socket addresses and I/O vectors lie in guest memory.
//!
//! `struct sockaddr_in` (wasm32): family (u16, little-endian) at 0, port (u16,
//! network order) at 2, address (4 bytes, network order) at 4, 8 bytes of
//! padding. `struct sockaddr_un`: family at 0, path at 2, up to 108 bytes and
//! NUL-terminated. An I/O vector field is a pointer to an array of
//! (base, length) pairs, followed by their number.

use vstd::prelude::*;

use crate::bytes::{
    bytes_at, i32_at, in_range, law_splice_reads_back, le_bytes, le_value, lemma_le_bytes_2,
    lemma_le_value_2, signed_at, splice, u16_at, u16_bytes, write_at, zeros,
};
use crate::fs_records::zero_bytes;
use crate::socket::EINVAL;
use crate::text::{
    all_digits, chars_of, decimal, digit, digit_value, digits_value, lemma_split_append,
    lemma_split_single, push_decimal, split_chars, split_on, string_from_utf8_lossy, texts,
    utf8_lossy,
};

verus! {

/// The length of a `sockaddr_un` path.
pub const SUN_PATH_LEN: usize = 108;

/// The octet that a piece of text stands for: decimal digits, possibly after a
/// plus sign, at most 255.
pub open spec fn octet(s: Seq<char>) -> Option<u8> {
    let digits = if s.len() > 1 && s[0] == '+' {
        s.skip(1)
    } else {
        s
    };
    if digits.len() > 0 && all_digits(digits) && digits_value(digits) <= 255 {
        Some(digits_value(digits) as u8)
    } else {
        None
    }
}

/// The four octets of a dotted quad: four pieces between dots, each an octet.
/// `None` for any other text.
pub open spec fn quad(host: Seq<char>) -> Option<Seq<u8>> {
    let p = split_on(host, '.');
    if p.len() == 4 && forall|i: int| 0 <= i < 4 ==> octet(#[trigger] p[i]) is Some {
        Some(Seq::new(4, |i: int| octet(p[i])->0))
    } else {
        None
    }
}

/// The octets among some pieces of text, in order; other pieces are left out.
pub open spec fn octets_among(pieces: Seq<Seq<char>>) -> Seq<u8>
    decreases pieces.len(),
{
    if pieces.len() == 0 {
        Seq::empty()
    } else {
        match octet(pieces.last()) {
            Some(b) => octets_among(pieces.drop_last()).push(b),
            None => octets_among(pieces.drop_last()),
        }
    }
}

/// The octets between the dots of a text.
pub open spec fn octets(host: Seq<char>) -> Seq<u8> {
    octets_among(split_on(host, '.'))
}

/// The IPv4 address that a host text stands for: that of a dotted quad, else the
/// loopback address.
pub open spec fn ipv4(host: Seq<char>) -> Seq<u8> {
    match quad(host) {
        Some(a) => a,
        None => seq![127u8, 0, 0, 1],
    }
}

/// An IPv4 address in dotted notation.
pub open spec fn dotted(a: Seq<u8>) -> Seq<char> {
    (((decimal(a[0] as nat).push('.') + decimal(a[1] as nat)).push('.') + decimal(
        a[2] as nat,
    )).push('.') + decimal(a[3] as nat))
}

/// The bytes of the `sockaddr_in` of an IPv4 address.
pub open spec fn sockaddr_of(a: Seq<u8>, port: u16) -> Seq<u8> {
    le_bytes(2, 2) + seq![(port / 256) as u8, (port % 256) as u8] + a + zeros(8)
}

/// The bytes of the `sockaddr_in` of a host text.
pub open spec fn sockaddr_in(host: Seq<char>, port: u16) -> Seq<u8> {
    sockaddr_of(ipv4(host), port)
}

/// The host and port of the `sockaddr_in` at `at`.
pub open spec fn sockaddr_in_at(mem: Seq<u8>, at: int) -> Option<(Seq<char>, u16)> {
    if at + 8 > mem.len() || le_value(mem.subrange(at, at + 2)) != 2 {
        None
    } else {
        Some((dotted(mem.subrange(at + 4, at + 8)), (256 * mem[at + 2] + mem[at + 3]) as u16))
    }
}

/// The value of a digit is at most 255 steps away: reading a number's decimal
/// notation gives the number back.
proof fn lemma_decimal_value(n: nat)
    ensures
        decimal(n).len() > 0,
        all_digits(decimal(n)),
        digits_value(decimal(n)) == n,
        !decimal(n).contains('.'),
    decreases n,
{
    reveal_with_fuel(digits_value, 2);
    if n < 10 {
        let s = seq![digit(n)];
        assert(s.drop_last() =~= Seq::<char>::empty());
        assert(s.last() == digit(n));
        assert(digit_value(digit(n)) == n);
    } else {
        lemma_decimal_value(n / 10);
        let s = decimal(n);
        let init = decimal(n / 10);
        assert(s.drop_last() =~= init);
        assert(s.last() == digit(n % 10));
        assert(digit_value(digit(n % 10)) == n % 10);
        assert forall|i: int| 0 <= i < s.len() implies 0 <= digit_value(#[trigger] s[i]) <= 9 by {
            if i < init.len() {
                assert(s[i] == init[i]);
            }
        }
    }
    if decimal(n).contains('.') {
        let k = choose|k: int| 0 <= k < decimal(n).len() && decimal(n)[k] == '.';
        assert(0 <= digit_value(decimal(n)[k]));
    }
}

proof fn lemma_octet_of_decimal(b: u8)
    ensures
        octet(decimal(b as nat)) == Some(b),
        !decimal(b as nat).contains('.'),
{
    lemma_decimal_value(b as nat);
    let s = decimal(b as nat);
    assert(0 <= digit_value(s[0]));
}

/// Reading an address in dotted notation gives the address back.
pub proof fn law_dotted_round_trip(a: Seq<u8>)
    requires
        a.len() == 4,
    ensures
        ipv4(dotted(a)) == a,
        octets(dotted(a)) == a,
        split_on(dotted(a), '.').len() == 4,
        forall|i: int| 0 <= i < 4 ==> #[trigger] split_on(dotted(a), '.')[i] == decimal(a[i] as nat),
{
    let d0 = decimal(a[0] as nat);
    let d1 = decimal(a[1] as nat);
    let d2 = decimal(a[2] as nat);
    let d3 = decimal(a[3] as nat);
    lemma_octet_of_decimal(a[0]);
    lemma_octet_of_decimal(a[1]);
    lemma_octet_of_decimal(a[2]);
    lemma_octet_of_decimal(a[3]);
    let t1 = d0.push('.') + d1;
    let t2 = t1.push('.') + d2;
    lemma_split_single(d0, '.');
    lemma_split_append(d0, '.', d1);
    lemma_split_append(t1, '.', d2);
    lemma_split_append(t2, '.', d3);
    let segs = seq![d0].push(d1).push(d2).push(d3);
    assert(split_on(dotted(a), '.') == segs);
    assert forall|i: int| 0 <= i < 4 implies octet(#[trigger] segs[i]) == Some(a[i]) by {}
    assert(Seq::new(4, |i: int| octet(segs[i])->0) =~= a);
    reveal_with_fuel(octets_among, 5);
    assert(segs.drop_last() =~= seq![d0].push(d1).push(d2));
    assert(segs.drop_last().drop_last() =~= seq![d0].push(d1));
    assert(segs.drop_last().drop_last().drop_last() =~= seq![d0]);
    assert(seq![d0].drop_last() =~= Seq::empty());
    assert(octets_among(segs) =~= a);
}

/// Text that is no dotted quad stands for the loopback address: text without four
/// pieces between dots, and text with a piece that is no number up to 255.
pub proof fn law_other_hosts_are_loopback(host: Seq<char>, i: int)
    requires
        split_on(host, '.').len() != 4 || (0 <= i < 4 && octet(split_on(host, '.')[i]) is None),
    ensures
        ipv4(host) == seq![127u8, 0, 0, 1],
{
}

/// A piece of text is an octet exactly if it is, behind a plus sign that may be there,
/// one or more decimal digits that make a number up to 255, which it then is.
pub proof fn law_octet_is_number(s: Seq<char>)
    ensures
        forall|i: int| 0 <= i < s.len() && s.len() > 0 && octet(s) is Some ==> '0' <= #[trigger] s[i]
            <= '9' || (i == 0 && s[0] == '+' && s.len() > 1),
        s.len() == 0 ==> octet(s) is None,
        s.len() == 1 && '0' <= s[0] <= '9' ==> octet(s) == Some((s[0] as u32 - '0' as u32) as u8),
        s.len() > 1 && octet(s) is Some && '0' <= s[0] <= '9' && octet(s.drop_last()) is Some ==> octet(
            s,
        )->0 == 10 * octet(s.drop_last())->0 + (s.last() as u32 - '0' as u32),
{
    reveal_with_fuel(digits_value, 2);
    if octet(s) is Some {
        let d = if s.len() > 1 && s[0] == '+' {
            s.skip(1)
        } else {
            s
        };
        assert forall|i: int| 0 <= i < s.len() implies '0' <= #[trigger] s[i] <= '9' || (i == 0
            && s[0] == '+' && s.len() > 1) by {
            if s.len() > 1 && s[0] == '+' {
                if i > 0 {
                    assert(d[i - 1] == s[i]);
                    assert(0 <= digit_value(d[i - 1]) <= 9);
                }
            } else {
                assert(0 <= digit_value(d[i]) <= 9);
            }
        }
        assert(0 <= digit_value(d.last()) <= 9);
    }
    if s.len() == 1 {
        assert(s.drop_last() =~= Seq::empty());
        assert(digits_value(s) == digit_value(s[0]));
    }
    if s.len() > 1 && octet(s) is Some && '0' <= s[0] <= '9' && octet(s.drop_last()) is Some {
        assert(s.drop_last()[0] == s[0]);
        lemma_digits_positive(s);
        lemma_digits_positive(s.drop_last());
    }
}

/// Digits make no negative number.
proof fn lemma_digits_positive(s: Seq<char>)
    requires
        all_digits(s),
    ensures
        digits_value(s) >= 0,
    decreases s.len(),
{
    if s.len() > 0 {
        assert forall|i: int| 0 <= i < s.len() - 1 implies 0 <= digit_value(
            #[trigger] s.drop_last()[i],
        ) <= 9 by {
            assert(s.drop_last()[i] == s[i]);
        }
        lemma_digits_positive(s.drop_last());
        assert(0 <= digit_value(s[s.len() - 1]));
    }
}

/// The fields of a `sockaddr_in` stand at their offsets: the family 2, then the port
/// with its high byte first, then the address and eight zero bytes.
pub proof fn law_sockaddr_fields(a: Seq<u8>, port: u16)
    requires
        a.len() == 4,
    ensures
        ({
            let s = sockaddr_of(a, port);
            &&& s.len() == 16
            &&& s[0] == 2 && s[1] == 0
            &&& 256 * s[2] + s[3] == port
            &&& s.subrange(4, 8) == a
            &&& forall|i: int| 8 <= i < 16 ==> #[trigger] s[i] == 0
        }),
{
    lemma_le_bytes_2(2);
    assert(sockaddr_of(a, port).subrange(4, 8) =~= a);
}

/// The address at `at` is read from the bytes there: the family must be 2 in two bytes,
/// the low one first, the port has its high byte first, and the address is the four
/// bytes behind it.
pub proof fn law_sockaddr_is_read(mem: Seq<u8>, at: int)
    requires
        0 <= at,
    ensures
        sockaddr_in_at(mem, at) is Some <==> at + 8 <= mem.len() && mem[at] == 2 && mem[at + 1] == 0,
        sockaddr_in_at(mem, at) matches Some((host, port)) ==> {
            &&& port == 256 * mem[at + 2] + mem[at + 3]
            &&& host == dotted(mem.subrange(at + 4, at + 8))
            &&& octets(host) == mem.subrange(at + 4, at + 8)
        },
{
    if at + 8 <= mem.len() {
        lemma_le_value_2(mem.subrange(at, at + 2));
        law_dotted_round_trip(mem.subrange(at + 4, at + 8));
    }
}

/// Writing an address and parsing it gives the host, in dotted notation, and
/// the port back.
pub proof fn law_sockaddr_round_trip(mem: Seq<u8>, at: int, host: Seq<char>, port: u16)
    requires
        0 <= at,
        at + 16 <= mem.len(),
    ensures
        sockaddr_in_at(splice(mem, at, sockaddr_in(host, port)), at) == Some(
            (dotted(ipv4(host)), port),
        ),
{
    let b = sockaddr_in(host, port);
    lemma_le_bytes_2(2);
    assert(ipv4(host).len() == 4);
    assert(b.len() == 16);
    let m = splice(mem, at, b);
    law_splice_reads_back(mem, at, b);
    assert(m.subrange(at, at + 2) =~= seq![2u8, 0u8]);
    lemma_le_value_2(m.subrange(at, at + 2));
    assert(m.subrange(at + 4, at + 8) =~= ipv4(host));
    assert(m[at + 2] == (port / 256) as u8);
    assert(m[at + 3] == (port % 256) as u8);
    assert(256 * (port / 256) + port % 256 == port);
}

/// The octet that a piece of text stands for.
fn parse_octet(s: &Vec<char>) -> (r: Option<u8>)
    ensures
        r == octet(s@),
{
    let n: usize = s.len();
    let start: usize = if n > 1 && s[0] == '+' {
        1
    } else {
        0
    };
    let ghost digits = s@.skip(start as int);
    assert(start == 0 ==> digits =~= s@);
    if start >= n {
        return None;
    }
    let mut value: u32 = 0;
    let mut i: usize = start;
    let ghost mut big = false;
    assert(digits.take(0) =~= Seq::<char>::empty());
    while i < n
        invariant
            start <= i <= n,
            n == s@.len(),
            digits == s@.skip(start as int),
            digits == if s@.len() > 1 && s@[0] == '+' {
                s@.skip(1)
            } else {
                s@
            },
            start < n,
            all_digits(digits.take(i - start)),
            value <= 256,
            big ==> value == 256 && digits_value(digits.take(i - start)) >= 256,
            !big ==> value <= 255 && value == digits_value(digits.take(i - start)),
        decreases n - i,
    {
        let c: char = s[i];
        let ghost head = digits.take(i - start);
        let ghost next = digits.take(i - start + 1);
        assert(next.drop_last() =~= head);
        assert(next.last() == c);
        assert(digits[i - start] == c);
        if c < '0' || c > '9' {
            assert(!all_digits(digits));
            return None;
        }
        let d: u32 = c as u32 - 48;
        assert(all_digits(next)) by {
            assert forall|k: int| 0 <= k < next.len() implies 0 <= digit_value(
                #[trigger] next[k],
            ) <= 9 by {
                if k < head.len() {
                    assert(next[k] == head[k]);
                }
            }
        }
        let sum: u32 = value * 10 + d;
        proof {
            if big || sum > 255 {
                big = true;
            }
        }
        value = if value == 256 || sum > 255 {
            256
        } else {
            sum
        };
        i = i + 1;
    }
    assert(digits.take(n - start) =~= digits);
    if value > 255 {
        None
    } else {
        Some(value as u8)
    }
}

/// The octets between the dots of a text.
pub fn octets_of(host: &str) -> (r: Vec<u8>)
    ensures
        r@ == octets(host@),
{
    let cs = chars_of(host);
    let segs = split_chars(&cs, '.');
    let ghost all = split_on(host@, '.');
    assert(all == texts(segs@));
    let n: usize = segs.len();
    let mut out: Vec<u8> = Vec::new();
    let mut i: usize = 0;
    assert(all.take(0) =~= Seq::<Seq<char>>::empty());
    while i < n
        invariant
            i <= n,
            n == segs@.len(),
            all == texts(segs@),
            out@ == octets_among(all.take(i as int)),
        decreases n - i,
    {
        assert(all[i as int] == segs@[i as int]@);
        assert(all.take(i + 1).drop_last() =~= all.take(i as int));
        if let Some(b) = parse_octet(&segs[i]) {
            out.push(b);
        }
        i = i + 1;
    }
    assert(all.take(n as int) =~= all);
    out
}

/// The octets of a dotted quad.
fn ipv4_octets(host: &str) -> (r: Option<Vec<u8>>)
    ensures
        match r {
            Some(a) => quad(host@) == Some(a@),
            None => quad(host@) is None,
        },
{
    let cs = chars_of(host);
    let segs = split_chars(&cs, '.');
    let ghost all = split_on(host@, '.');
    assert(all == texts(segs@));
    if segs.len() != 4 {
        return None;
    }
    let mut parts: Vec<u8> = Vec::new();
    let mut i: usize = 0;
    while i < 4
        invariant
            i <= 4,
            segs@.len() == 4,
            all == texts(segs@),
            all == split_on(host@, '.'),
            parts@.len() == i,
            forall|k: int| 0 <= k < i ==> octet(#[trigger] all[k]) == Some(parts@[k]),
        decreases 4 - i,
    {
        assert(all[i as int] == segs@[i as int]@);
        match parse_octet(&segs[i]) {
            Some(b) => {
                parts.push(b);
            },
            None => {
                assert(octet(all[i as int]) is None);
                return None;
            },
        }
        i = i + 1;
    }
    assert(parts@ =~= Seq::new(4, |k: int| octet(all[k])->0));
    Some(parts)
}

/// The IPv4 address that a host text stands for.
fn host_address(host: &str) -> (r: Vec<u8>)
    ensures
        r@ == ipv4(host@),
        r@.len() == 4,
{
    match ipv4_octets(host) {
        Some(parts) => parts,
        None => {
            let r = vec![127u8, 0, 0, 1];
            assert(r@ =~= seq![127u8, 0, 0, 1]);
            r
        },
    }
}

/// Parse `(host, port)` from a `sockaddr_in` at `addr_ptr` in `mem`.
///
/// Returns `None` if the pointer is out of bounds or the family is not
/// `AF_INET`.
pub fn parse_sockaddr_in(mem: &[u8], addr_ptr: usize) -> (r: Option<(String, u16)>)
    ensures
        r is Some <==> sockaddr_in_at(mem@, addr_ptr as int) is Some,
        r matches Some(hp) ==> sockaddr_in_at(mem@, addr_ptr as int) == Some((hp.0@, hp.1)),
{
    if !in_range(mem.len(), addr_ptr, 8) {
        return None;
    }
    let family: u16 = u16_at(mem, addr_ptr);
    if family != 2 {
        return None;
    }
    let len: usize = mem.len();
    assert(addr_ptr + 8 <= len);
    let port: u16 = 256 * (mem[addr_ptr + 2] as u16) + mem[addr_ptr + 3] as u16;
    let ghost a = mem@.subrange(addr_ptr + 4, addr_ptr + 8);
    let mut host = String::new();
    push_decimal(&mut host, mem[addr_ptr + 4] as u64);
    host.append(".");
    push_decimal(&mut host, mem[addr_ptr + 5] as u64);
    host.append(".");
    push_decimal(&mut host, mem[addr_ptr + 6] as u64);
    host.append(".");
    push_decimal(&mut host, mem[addr_ptr + 7] as u64);
    proof {
        reveal_strlit(".");
        assert("."@ =~= seq!['.']);
        assert(host@ =~= dotted(a));
    }
    Some((host, port))
}

/// The bytes of the `sockaddr_in` of an IPv4 address.
pub fn sockaddr_bytes(address: Vec<u8>, port: u16) -> (r: Vec<u8>)
    ensures
        r@ == sockaddr_of(address@, port),
        r@.len() == 12 + address@.len(),
{
    let mut rec = u16_bytes(2);
    rec.push((port / 256) as u8);
    rec.push((port % 256) as u8);
    let mut ip = address;
    rec.append(&mut ip);
    let mut pad = zero_bytes(8);
    rec.append(&mut pad);
    proof {
        lemma_le_bytes_2(2);
        assert(rec@ =~= sockaddr_of(address@, port));
    }
    rec
}

/// Write an IPv4 `sockaddr_in` into guest memory at `addr_ptr`. A host that is no
/// dotted quad falls back to loopback. Nothing is written if it would not fit.
pub fn write_sockaddr_in(mem: &mut [u8], addr_ptr: usize, host: &str, port: u16)
    ensures
        final(mem)@ == if addr_ptr + 16 <= old(mem)@.len() {
            splice(old(mem)@, addr_ptr as int, sockaddr_in(host@, port))
        } else {
            old(mem)@
        },
{
    if !in_range(mem.len(), addr_ptr, 16) {
        return ;
    }
    let rec = sockaddr_bytes(host_address(host), port);
    write_at(mem, addr_ptr, &rec);
}

/// Where the path of the `sockaddr_un` at `at` ends: at its NUL, or where the
/// structure or memory does.
pub open spec fn sun_path_end(mem: Seq<u8>, at: int, i: int) -> int
    decreases at + 2 + SUN_PATH_LEN - i,
{
    if i >= at + 2 + SUN_PATH_LEN || i >= mem.len() || mem[i] == 0 {
        i
    } else {
        sun_path_end(mem, at, i + 1)
    }
}

/// The path bytes of the `sockaddr_un` at `at`.
pub open spec fn sockaddr_un_at(mem: Seq<u8>, at: int) -> Option<Seq<u8>> {
    if at + 2 > mem.len() || le_value(mem.subrange(at, at + 2)) != 1 {
        None
    } else {
        Some(mem.subrange(at + 2, sun_path_end(mem, at, at + 2)))
    }
}

/// The path of a `sockaddr_un` is what stands behind the family, which must be 1, up
/// to the first NUL; at most 108 bytes, and never beyond memory.
pub proof fn law_sun_path_is_read(mem: Seq<u8>, at: int)
    requires
        0 <= at,
    ensures
        sockaddr_un_at(mem, at) is Some <==> at + 2 <= mem.len() && mem[at] == 1 && mem[at + 1] == 0,
        sockaddr_un_at(mem, at) matches Some(path) ==> {
            let end = at + 2 + path.len();
            &&& path.len() <= 108
            &&& end <= mem.len()
            &&& path == mem.subrange(at + 2, end)
            &&& forall|i: int| 0 <= i < path.len() ==> #[trigger] path[i] != 0
            &&& path.len() == 108 || end == mem.len() || mem[end] == 0
        },
{
    if at + 2 <= mem.len() {
        lemma_le_value_2(mem.subrange(at, at + 2));
        lemma_sun_path_end(mem, at, at + 2);
    }
}

proof fn lemma_sun_path_end(mem: Seq<u8>, at: int, i: int)
    requires
        at + 2 <= i <= at + 2 + SUN_PATH_LEN,
        i <= mem.len(),
    ensures
        ({
            let end = sun_path_end(mem, at, i);
            &&& i <= end <= at + 2 + SUN_PATH_LEN
            &&& end <= mem.len()
            &&& forall|j: int| i <= j < end ==> #[trigger] mem[j] != 0
            &&& end == at + 2 + SUN_PATH_LEN || end == mem.len() || mem[end] == 0
        }),
    decreases at + 2 + SUN_PATH_LEN - i,
{
    if i < at + 2 + SUN_PATH_LEN && i < mem.len() && mem[i] != 0 {
        lemma_sun_path_end(mem, at, i + 1);
    }
}

/// Parse the path of a `sockaddr_un` at `addr_ptr` in `mem`.
///
/// Returns `None` if the pointer is out of bounds or the family is not
/// `AF_UNIX`.
pub fn parse_sockaddr_un(mem: &[u8], addr_ptr: usize) -> (r: Option<String>)
    ensures
        match sockaddr_un_at(mem@, addr_ptr as int) {
            Some(bytes) => r is Some && r->0@ == utf8_lossy(bytes),
            None => r is None,
        },
{
    if !in_range(mem.len(), addr_ptr, 2) {
        return None;
    }
    if u16_at(mem, addr_ptr) != 1 {
        return None;
    }
    let len: usize = mem.len();
    let start: usize = addr_ptr + 2;
    let end: usize = if len - start < SUN_PATH_LEN {
        len
    } else {
        start + SUN_PATH_LEN
    };
    let mut i: usize = start;
    while i < end && mem[i] != 0
        invariant
            start <= i <= end,
            end <= len,
            len == mem@.len(),
            start == addr_ptr + 2,
            end == len || end == start + SUN_PATH_LEN,
            end <= start + SUN_PATH_LEN,
            sun_path_end(mem@, addr_ptr as int, start as int) == sun_path_end(
                mem@,
                addr_ptr as int,
                i as int,
            ),
        decreases end - i,
    {
        i = i + 1;
    }
    Some(string_from_utf8_lossy(&mem[start..i]))
}

/// Write a `sockaddr_un` without a path into guest memory at `addr_ptr`: the
/// family and a NUL. Nothing is written if it would not fit.
pub fn write_sockaddr_un_empty(mem: &mut [u8], addr_ptr: usize)
    ensures
        final(mem)@ == if addr_ptr + 3 <= old(mem)@.len() {
            splice(old(mem)@, addr_ptr as int, seq![1u8, 0u8, 0u8])
        } else {
            old(mem)@
        },
{
    if !in_range(mem.len(), addr_ptr, 3) {
        return ;
    }
    let rec = vec![1u8, 0, 0];
    assert(rec@ =~= seq![1u8, 0u8, 0u8]);
    write_at(mem, addr_ptr, &rec);
}

/// A signed guest word taken as an unsigned size: negative words become sizes
/// beyond any memory.
pub open spec fn as_size(v: i32) -> int {
    if v < 0 {
        usize::MAX + 1 + v
    } else {
        v as int
    }
}

/// Sizes count on from word to word, but for the step from -1, the largest size there is,
/// to 0.
pub proof fn law_sizes_count_on(v: i32)
    requires
        v < i32::MAX,
    ensures
        as_size(0) == 0,
        as_size((-1) as i32) == usize::MAX,
        v != -1 ==> as_size((v + 1) as i32) == as_size(v) + 1,
{
}

/// The size at `at`.
pub open spec fn size_at(mem: Seq<u8>, at: int) -> int {
    as_size(signed_at(mem, at))
}

/// The bytes of `n` buffers whose descriptions start at `off`, or `EINVAL` if a
/// description or a buffer lies out of bounds.
pub open spec fn gathered(mem: Seq<u8>, off: int, n: int) -> Result<Seq<u8>, i32>
    decreases n,
{
    if n <= 0 {
        Ok(Seq::empty())
    } else if off + 8 > mem.len() || size_at(mem, off) + size_at(mem, off + 4) > mem.len() {
        Err(EINVAL)
    } else {
        match gathered(mem, off + 8, n - 1) {
            Ok(rest) => Ok(
                mem.subrange(size_at(mem, off), size_at(mem, off) + size_at(mem, off + 4)) + rest,
            ),
            Err(e) => Err(e),
        }
    }
}

/// The total length of `n` buffers whose descriptions start at `off`, up to the
/// first description that lies out of bounds.
pub open spec fn total_len(mem: Seq<u8>, off: int, n: int) -> int
    decreases n,
{
    if n <= 0 || off + 8 > mem.len() {
        0
    } else {
        size_at(mem, off + 4) + total_len(mem, off + 8, n - 1)
    }
}

/// Memory and count after `bytes` from index `done` on were laid into `n`
/// buffers whose descriptions start at `off`. A buffer that does not lie in
/// memory is passed over; a description that does not ends the walk.
pub open spec fn scattered(
    mem: Seq<u8>,
    off: int,
    n: int,
    bytes: Seq<u8>,
    done: int,
) -> (Seq<u8>, int)
    decreases n,
{
    if n <= 0 || done >= bytes.len() || off + 8 > mem.len() {
        (mem, done)
    } else {
        let base = size_at(mem, off);
        let len = size_at(mem, off + 4);
        let take = if bytes.len() - done <= len {
            bytes.len() - done
        } else {
            len
        };
        if base + take <= mem.len() {
            scattered(
                splice(mem, base, bytes.subrange(done, done + take)),
                off + 8,
                n - 1,
                bytes,
                done + take,
            )
        } else {
            scattered(mem, off + 8, n - 1, bytes, done)
        }
    }
}

/// What is gathered from one buffer is the bytes of memory that its description names,
/// by address and length, and what is gathered from several is theirs, joined in the
/// order of the descriptions.
pub proof fn law_gathered_is_joined(mem: Seq<u8>, off: int, k: int, n: int)
    requires
        0 <= off,
        0 <= k <= n,
        gathered(mem, off, n) is Ok,
    ensures
        gathered(mem, off, k) is Ok,
        gathered(mem, off + 8 * k, n - k) is Ok,
        gathered(mem, off, n)->Ok_0 == gathered(mem, off, k)->Ok_0 + gathered(
            mem,
            off + 8 * k,
            n - k,
        )->Ok_0,
        n == 0 ==> gathered(mem, off, n)->Ok_0.len() == 0,
        n == 1 ==> {
            let base = signed_at(mem, off) as int;
            let len = signed_at(mem, off + 4) as int;
            &&& 0 <= base
            &&& 0 <= len
            &&& base + len <= mem.len()
            &&& gathered(mem, off, n)->Ok_0 == mem.subrange(base, base + len)
        } || mem.len() > usize::MAX + i32::MIN,
    decreases n,
{
    reveal_with_fuel(gathered, 2);
    if n == 1 && mem.len() <= usize::MAX + i32::MIN {
        let base = size_at(mem, off);
        let len = size_at(mem, off + 4);
        assert(mem.subrange(base, base + len) + Seq::<u8>::empty() =~= mem.subrange(
            base,
            base + len,
        ));
    }
    if k == 0 {
        assert(Seq::<u8>::empty() + gathered(mem, off, n)->Ok_0 =~= gathered(mem, off, n)->Ok_0);
    } else {
        law_gathered_is_joined(mem, off + 8, k - 1, n - 1);
        let base = size_at(mem, off);
        let piece = mem.subrange(base, base + size_at(mem, off + 4));
        let mid = gathered(mem, off + 8, k - 1)->Ok_0;
        let last = gathered(mem, off + 8 * k, n - k)->Ok_0;
        assert(off + 8 + 8 * (k - 1) == off + 8 * k);
        assert(piece + (mid + last) =~= (piece + mid) + last);
    }
}

/// Whether description `i` of those that start at `off`, and the buffer that it names,
/// lie inside memory.
pub open spec fn buffer_fits(mem: Seq<u8>, off: int, i: int) -> bool {
    let at = off + 8 * i;
    at + 8 <= mem.len() && size_at(mem, at) + size_at(mem, at + 4) <= mem.len()
}

/// Gathering succeeds if every description and every buffer lies inside memory, and
/// is `EINVAL` otherwise.
pub proof fn law_gather_needs_bounds(mem: Seq<u8>, off: int, n: int)
    ensures
        (forall|i: int| 0 <= i < n ==> #[trigger] buffer_fits(mem, off, i)) ==> gathered(mem, off, n)
            is Ok,
        forall|i: int|
            0 <= i < n && !(#[trigger] buffer_fits(mem, off, i)) ==> (gathered(mem, off, n) matches Err(
                e,
            ) && e == -22),
    decreases n,
{
    if n > 0 {
        law_gather_needs_bounds(mem, off + 8, n - 1);
        assert(off + 8 * 0 == off);
        assert(buffer_fits(mem, off, 0) <==> !(off + 8 > mem.len() || size_at(mem, off) + size_at(
            mem,
            off + 4,
        ) > mem.len()));
        if forall|i: int| 0 <= i < n ==> #[trigger] buffer_fits(mem, off, i) {
            assert forall|i: int| 0 <= i < n - 1 implies #[trigger] buffer_fits(
                mem,
                off + 8,
                i,
            ) by {
                assert(off + 8 + 8 * i == off + 8 * (i + 1));
                assert(buffer_fits(mem, off, i + 1));
            }
        }
        assert forall|i: int| 0 <= i < n && !(#[trigger] buffer_fits(mem, off, i)) implies (gathered(
            mem,
            off,
            n,
        ) matches Err(e) && e == -22) by {
            if i > 0 {
                assert(off + 8 + 8 * (i - 1) == off + 8 * i);
                assert(!buffer_fits(mem, off + 8, i - 1));
            }
        }
    }
}

/// Buffers hold as many bytes as are gathered from them.
pub proof fn law_capacity_is_gathered_len(mem: Seq<u8>, off: int, n: int)
    requires
        gathered(mem, off, n) is Ok,
    ensures
        gathered(mem, off, n)->Ok_0.len() == total_len(mem, off, n),
    decreases n,
{
    if n > 0 {
        law_capacity_is_gathered_len(mem, off + 8, n - 1);
    }
}

/// Laying back what was gathered from buffers changes nothing, and all of it finds
/// a place.
pub proof fn law_scatter_undoes_gather(mem: Seq<u8>, off: int, n: int)
    requires
        gathered(mem, off, n) is Ok,
    ensures
        ({
            let bytes = gathered(mem, off, n)->Ok_0;
            scattered(mem, off, n, bytes, 0) == (mem, bytes.len() as int)
        }),
{
    let bytes = gathered(mem, off, n)->Ok_0;
    assert(Seq::<u8>::empty() + bytes =~= bytes);
    lemma_scatter_behind(mem, off, n, Seq::empty());
}

/// Laying back what was gathered, behind bytes that have found their place.
proof fn lemma_scatter_behind(mem: Seq<u8>, off: int, n: int, done: Seq<u8>)
    requires
        gathered(mem, off, n) is Ok,
    ensures
        ({
            let bytes = done + gathered(mem, off, n)->Ok_0;
            scattered(mem, off, n, bytes, done.len() as int) == (mem, bytes.len() as int)
        }),
    decreases n,
{
    let here = gathered(mem, off, n)->Ok_0;
    let bytes = done + here;
    if n > 0 {
        let base = size_at(mem, off);
        let len = size_at(mem, off + 4);
        let piece = mem.subrange(base, base + len);
        let rest = gathered(mem, off + 8, n - 1)->Ok_0;
        assert((done + piece) + rest =~= bytes);
        assert(bytes.subrange(done.len() as int, done.len() + len) =~= piece);
        assert(splice(mem, base, piece) =~= mem);
        lemma_scatter_behind(mem, off + 8, n - 1, done + piece);
    }
}

/// Two runs of bytes that share none.
pub open spec fn disjoint(a: int, a_len: int, b: int, b_len: int) -> bool {
    a_len == 0 || b_len == 0 || a + a_len <= b || b + b_len <= a
}

/// The `len` bytes at `base` lie in none of the `n` buffers whose descriptions
/// start at `off`.
pub open spec fn misses(mem: Seq<u8>, off: int, n: int, base: int, len: int) -> bool
    decreases n,
{
    n <= 0 || (disjoint(base, len, size_at(mem, off), size_at(mem, off + 4)) && misses(
        mem,
        off + 8,
        n - 1,
        base,
        len,
    ))
}

/// The `n` buffers whose descriptions start at `off` share no byte with each other
/// nor with the descriptions.
pub open spec fn apart(mem: Seq<u8>, off: int, n: int) -> bool
    decreases n,
{
    n <= 0 || (misses(mem, off, n, off, 8 * n) && misses(
        mem,
        off + 8,
        n - 1,
        size_at(mem, off),
        size_at(mem, off + 4),
    ) && apart(mem, off + 8, n - 1))
}

/// Whatever bytes are laid into buffers that lie apart are gathered from them
/// again: all of them, or as many as there is room for. What the buffers hold
/// behind them, and all memory outside the buffers, is as it was.
pub proof fn law_gather_reads_back_scatter(mem: Seq<u8>, off: int, n: int, bytes: Seq<u8>)
    requires
        0 <= off,
        gathered(mem, off, n) is Ok,
        apart(mem, off, n),
    ensures
        ({
            let before = gathered(mem, off, n)->Ok_0;
            let k = if bytes.len() <= before.len() {
                bytes.len() as int
            } else {
                before.len() as int
            };
            let (after, done) = scattered(mem, off, n, bytes, 0);
            &&& done == k
            &&& gathered(after, off, n) == Ok::<Seq<u8>, i32>(bytes.take(k) + before.skip(k))
            &&& after.len() == mem.len()
            &&& forall|p: int|
                0 <= p < mem.len() && #[trigger] misses(mem, off, n, p, 1) ==> after[p] == mem[p]
        }),
{
    lemma_scatter_reads_back(mem, off, n, bytes, 0);
    law_capacity_is_gathered_len(mem, off, n);
    let k = scattered(mem, off, n, bytes, 0).1;
    assert(bytes.subrange(0, k) =~= bytes.take(k));
}

/// A part of a run that misses the buffers misses them too.
proof fn lemma_misses_part(
    mem: Seq<u8>,
    off: int,
    n: int,
    base: int,
    len: int,
    part: int,
    part_len: int,
)
    requires
        misses(mem, off, n, base, len),
        base <= part,
        0 <= part_len,
        part + part_len <= base + len,
    ensures
        misses(mem, off, n, part, part_len),
    decreases n,
{
    if n > 0 {
        lemma_misses_part(mem, off + 8, n - 1, base, len, part, part_len);
    }
}

/// Memories that agree on a description read the same buffer from it.
proof fn lemma_same_description(a: Seq<u8>, b: Seq<u8>, off: int)
    requires
        0 <= off,
        off + 8 <= a.len(),
        a.len() == b.len(),
        forall|p: int| off <= p < off + 8 ==> a[p] == b[p],
    ensures
        size_at(a, off) == size_at(b, off),
        size_at(a, off + 4) == size_at(b, off + 4),
{
    assert(a.subrange(off, off + 4) =~= b.subrange(off, off + 4));
    assert(a.subrange(off + 4, off + 8) =~= b.subrange(off + 4, off + 8));
}

/// Which runs miss the buffers is read from their descriptions alone.
proof fn lemma_misses_frame(a: Seq<u8>, b: Seq<u8>, off: int, n: int, base: int, len: int)
    requires
        0 <= off,
        n > 0 ==> off + 8 * n <= a.len(),
        a.len() == b.len(),
        forall|p: int| off <= p < off + 8 * n ==> a[p] == b[p],
    ensures
        misses(a, off, n, base, len) == misses(b, off, n, base, len),
    decreases n,
{
    if n > 0 {
        lemma_same_description(a, b, off);
        lemma_misses_frame(a, b, off + 8, n - 1, base, len);
    }
}

/// The descriptions of buffers that can be gathered lie in memory.
proof fn lemma_descriptions_in_memory(mem: Seq<u8>, off: int, n: int)
    requires
        gathered(mem, off, n) is Ok,
    ensures
        n > 0 ==> off + 8 * n <= mem.len(),
        total_len(mem, off, n) >= 0,
    decreases n,
{
    if n > 0 {
        lemma_descriptions_in_memory(mem, off + 8, n - 1);
    }
}

/// A change to bytes that lie neither in the buffers nor in their descriptions
/// changes nothing of what is gathered.
proof fn lemma_gather_frame(a: Seq<u8>, b: Seq<u8>, off: int, n: int, base: int, len: int)
    requires
        0 <= off,
        gathered(a, off, n) is Ok,
        a.len() == b.len(),
        forall|p: int| 0 <= p < a.len() && !(base <= p < base + len) ==> a[p] == b[p],
        disjoint(base, len, off, 8 * n),
        misses(a, off, n, base, len),
    ensures
        gathered(b, off, n) == gathered(a, off, n),
        total_len(b, off, n) == total_len(a, off, n),
        apart(b, off, n) == apart(a, off, n),
    decreases n,
{
    if n > 0 {
        lemma_descriptions_in_memory(a, off, n);
        assert forall|p: int| off <= p < off + 8 * n implies a[p] == b[p] by {}
        lemma_same_description(a, b, off);
        lemma_gather_frame(a, b, off + 8, n - 1, base, len);
        lemma_misses_frame(a, b, off, n, off, 8 * n);
        let first = size_at(a, off);
        let first_len = size_at(a, off + 4);
        lemma_misses_frame(a, b, off + 8, n - 1, first, first_len);
        assert(a.subrange(first, first + first_len) =~= b.subrange(first, first + first_len));
    }
}

/// Laying bytes into buffers that lie apart, from index `done` on.
proof fn lemma_scatter_reads_back(mem: Seq<u8>, off: int, n: int, bytes: Seq<u8>, done: int)
    requires
        0 <= off,
        gathered(mem, off, n) is Ok,
        apart(mem, off, n),
        0 <= done <= bytes.len(),
    ensures
        ({
            let room = total_len(mem, off, n);
            let k = if bytes.len() - done <= room {
                bytes.len() - done
            } else {
                room
            };
            let (after, end) = scattered(mem, off, n, bytes, done);
            &&& end == done + k
            &&& after.len() == mem.len()
            &&& gathered(after, off, n) == Ok::<Seq<u8>, i32>(
                bytes.subrange(done, end) + gathered(mem, off, n)->Ok_0.skip(k),
            )
            &&& forall|p: int|
                0 <= p < mem.len() && #[trigger] misses(mem, off, n, p, 1) ==> after[p] == mem[p]
        }),
    decreases n,
{
    let before = gathered(mem, off, n)->Ok_0;
    lemma_descriptions_in_memory(mem, off, n);
    law_capacity_is_gathered_len(mem, off, n);
    let (after, end) = scattered(mem, off, n, bytes, done);
    if n <= 0 || done == bytes.len() {
        assert(bytes.subrange(done, done) + before.skip(0) =~= before);
    } else {
        let base = size_at(mem, off);
        let len = size_at(mem, off + 4);
        let take = if bytes.len() - done <= len {
            bytes.len() - done
        } else {
            len
        };
        let rest = gathered(mem, off + 8, n - 1)->Ok_0;
        let m = splice(mem, base, bytes.subrange(done, done + take));
        assert(m.len() == mem.len());
        assert forall|p: int| 0 <= p < mem.len() && !(base <= p < base + take) implies mem[p]
            == m[p] by {}
        lemma_misses_part(mem, off + 8, n - 1, base, len, base, take);
        lemma_gather_frame(mem, m, off + 8, n - 1, base, take);
        lemma_scatter_reads_back(m, off + 8, n - 1, bytes, done + take);
        assert((after, end) == scattered(m, off + 8, n - 1, bytes, done + take));
        assert forall|p: int|
            0 <= p < mem.len() && #[trigger] misses(mem, off + 8, n - 1, p, 1) implies after[p]
            == m[p] by {
            lemma_misses_frame(mem, m, off + 8, n - 1, p, 1);
        }
        assert forall|p: int| off <= p < off + 8 implies after[p] == mem[p] by {
            lemma_misses_part(mem, off + 8, n - 1, off, 8 * n, p, 1);
        }
        lemma_same_description(after, mem, off);
        assert forall|p: int| base <= p < base + len implies after[p] == m[p] by {
            lemma_misses_part(mem, off + 8, n - 1, base, len, p, 1);
        }
        assert(after.subrange(base, base + len) =~= bytes.subrange(done, done + take)
            + mem.subrange(base + take, base + len));
        let k = end - done;
        let tail = bytes.subrange(done + take, end) + rest.skip(k - take);
        assert(gathered(after, off + 8, n - 1) == Ok::<Seq<u8>, i32>(tail));
        assert(gathered(after, off, n) == Ok::<Seq<u8>, i32>(
            after.subrange(base, base + len) + tail,
        ));
        assert(before == mem.subrange(base, base + len) + rest);
        assert(before.skip(k) =~= mem.subrange(base + take, base + len) + rest.skip(k - take)) by {
            if take < len {
                assert(k == take);
            }
        }
        assert(after.subrange(base, base + len) + tail =~= bytes.subrange(done, end)
            + before.skip(k)) by {
            if take < len {
                assert(k == take);
            }
        }
        assert forall|p: int|
            0 <= p < mem.len() && #[trigger] misses(mem, off, n, p, 1) implies after[p]
            == mem[p] by {
            assert(misses(mem, off + 8, n - 1, p, 1));
        }
    }
}

/// The size that a signed guest word stands for.
fn size_of_word(v: i32) -> (r: usize)
    ensures
        r == as_size(v),
{
    if v < 0 {
        let back: usize = (-(v as i64) - 1) as usize;
        usize::MAX - back
    } else {
        v as usize
    }
}

/// The size at `at`.
fn read_size(mem: &[u8], at: usize) -> (r: usize)
    requires
        at + 4 <= mem@.len(),
    ensures
        r == size_at(mem@, at as int),
{
    size_of_word(i32_at(mem, at))
}

/// Read iov pointer + iovlen from `iov_field_ptr` (two words), gather all
/// buffers into one vector. Returns `Err(EINVAL)` if anything is out of bounds.
pub fn gather_iov(mem: &[u8], iov_field_ptr: usize) -> (r: Result<Vec<u8>, i32>)
    ensures
        ({
            let p = iov_field_ptr as int;
            let want = if p + 8 > mem@.len() {
                Err(EINVAL)
            } else {
                gathered(mem@, size_at(mem@, p), size_at(mem@, p + 4))
            };
            match want {
                Ok(bytes) => r is Ok && r->Ok_0@ == bytes,
                Err(e) => r == Err::<Vec<u8>, i32>(e),
            }
        }),
{
    let len: usize = mem.len();
    if !in_range(len, iov_field_ptr, 8) {
        return Err(EINVAL);
    }
    let start: usize = read_size(mem, iov_field_ptr);
    let n: usize = read_size(mem, iov_field_ptr + 4);
    let mut off: usize = start;
    let mut left: usize = n;
    let mut out: Vec<u8> = Vec::new();
    let ghost want = gathered(mem@, start as int, n as int);
    proof {
        if want is Ok {
            assert(out@ + want->Ok_0 =~= want->Ok_0);
        }
    }
    while left > 0
        invariant
            len == mem@.len(),
            iov_field_ptr + 8 <= len,
            start == size_at(mem@, iov_field_ptr as int),
            n == size_at(mem@, iov_field_ptr + 4),
            want == gathered(mem@, start as int, n as int),
            want == match gathered(mem@, off as int, left as int) {
                Ok(rest) => Ok::<Seq<u8>, i32>(out@ + rest),
                Err(e) => Err(e),
            },
        decreases left,
    {
        if !in_range(len, off, 8) {
            return Err(EINVAL);
        }
        let base: usize = read_size(mem, off);
        let size: usize = read_size(mem, off + 4);
        if !in_range(len, base, size) {
            return Err(EINVAL);
        }
        let ghost done = out@;
        let mut chunk = bytes_at(mem, base, size);
        let ghost piece = chunk@;
        out.append(&mut chunk);
        off = off + 8;
        left = left - 1;
        proof {
            let rest = gathered(mem@, off as int, left as int);
            if rest is Ok {
                assert(done + (piece + rest->Ok_0) =~= out@ + rest->Ok_0);
            }
        }
    }
    assert(out@ + Seq::<u8>::empty() =~= out@);
    Ok(out)
}

/// Total byte capacity of iovec buffers pointed to by the iov field at
/// `iov_field_ptr`, held within `usize`.
pub fn iov_capacity(mem: &[u8], iov_field_ptr: usize) -> (r: usize)
    ensures
        ({
            let p = iov_field_ptr as int;
            let want = if p + 8 > mem@.len() {
                0
            } else {
                total_len(mem@, size_at(mem@, p), size_at(mem@, p + 4))
            };
            r == if want > usize::MAX {
                usize::MAX as int
            } else {
                want
            }
        }),
{
    let len: usize = mem.len();
    if !in_range(len, iov_field_ptr, 8) {
        return 0;
    }
    let start: usize = read_size(mem, iov_field_ptr);
    let n: usize = read_size(mem, iov_field_ptr + 4);
    let mut off: usize = start;
    let mut left: usize = n;
    let mut total: usize = 0;
    let ghost mut exact: int = 0;
    let ghost want = total_len(mem@, start as int, n as int);
    while left > 0
        invariant
            len == mem@.len(),
            0 <= exact,
            want == exact + total_len(mem@, off as int, left as int),
            total == if exact > usize::MAX {
                usize::MAX as int
            } else {
                exact
            },
        ensures
            want == exact,
            total == if exact > usize::MAX {
                usize::MAX as int
            } else {
                exact
            },
        decreases left,
    {
        if !in_range(len, off, 8) {
            break ;
        }
        let size: usize = read_size(mem, off + 4);
        total = total.saturating_add(size);
        proof {
            exact = exact + size;
        }
        off = off + 8;
        left = left - 1;
    }
    total
}

/// Scatter `bytes` into iovec buffers; returns total bytes written, or `EINVAL`
/// if the iov field lies out of bounds.
pub fn scatter_iov(mem: &mut [u8], iov_field_ptr: usize, bytes: &[u8]) -> (r: i32)
    ensures
        ({
            let p = iov_field_ptr as int;
            if p + 8 > old(mem)@.len() {
                r == EINVAL && final(mem)@ == old(mem)@
            } else {
                let done = scattered(
                    old(mem)@,
                    size_at(old(mem)@, p),
                    size_at(old(mem)@, p + 4),
                    bytes@,
                    0,
                );
                r == done.1 as i32 && final(mem)@ == done.0
            }
        }),
{
    let len: usize = mem.len();
    if !in_range(len, iov_field_ptr, 8) {
        return EINVAL;
    }
    let start: usize = read_size(mem, iov_field_ptr);
    let n: usize = read_size(mem, iov_field_ptr + 4);
    let mut off: usize = start;
    let mut left: usize = n;
    let mut written: usize = 0;
    let count: usize = bytes.len();
    let ghost want = scattered(mem@, start as int, n as int, bytes@, 0);
    while left > 0 && written < count
        invariant
            len == mem@.len(),
            count == bytes@.len(),
            written <= count,
            want == scattered(mem@, off as int, left as int, bytes@, written as int),
        ensures
            want.0 == mem@,
            want.1 == written,
        decreases left,
    {
        if !in_range(len, off, 8) {
            break ;
        }
        let base: usize = read_size(mem, off);
        let size: usize = read_size(mem, off + 4);
        let take: usize = if count - written < size {
            count - written
        } else {
            size
        };
        if in_range(len, base, take) {
            write_at(mem, base, &bytes[written..written + take]);
            written = written + take;
        }
        off = off + 8;
        left = left - 1;
    }
    written as i32
}

} // verus!
