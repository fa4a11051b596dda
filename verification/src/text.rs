//! Text helpers: conversion between strings, characters and UTF-8 bytes, and
//! the order in which names are listed.

use vstd::prelude::*;
use vstd::utf8::*;

verus! {

/// What `String::from_utf8_lossy` makes of a byte sequence: the text with every
/// ill-formed part replaced by U+FFFD.
pub uninterp spec fn utf8_lossy(bytes: Seq<u8>) -> Seq<char>;

/// `String::push`: the character goes to the end of the string.
#[verifier::external_body]
fn push_char(s: &mut String, c: char)
    ensures
        final(s)@ == old(s)@.push(c),
{
    s.push(c);
}

/// `String::from_utf8`: succeeds exactly on well-formed UTF-8, and then holds
/// the text that the bytes encode.
#[verifier::external_body]
pub(crate) fn string_from_utf8(bytes: Vec<u8>) -> (r: Option<String>)
    ensures
        r is Some <==> valid_utf8(bytes@),
        r matches Some(s) ==> s@ == decode_utf8(bytes@),
{
    String::from_utf8(bytes).ok()
}

/// `String::from_utf8_lossy`: total, a function of the bytes alone, and plain
/// decoding where the bytes are well-formed. What replaces an ill-formed part
/// is only named.
#[verifier::external_body]
pub(crate) fn string_from_utf8_lossy(bytes: &[u8]) -> (r: String)
    ensures
        r@ == utf8_lossy(bytes@),
        valid_utf8(bytes@) ==> r@ == decode_utf8(bytes@),
{
    String::from_utf8_lossy(bytes).into_owned()
}

/// The characters of a string.
pub fn chars_of(s: &str) -> (r: Vec<char>)
    ensures
        r@ == s@,
{
    let mut out: Vec<char> = Vec::new();
    for c in it: s.chars()
        invariant
            out@ == it.seq().take(it.index()),
    {
        out.push(c);
    }
    out
}

/// Append characters to a string.
pub fn push_chars(s: &mut String, cs: &[char])
    ensures
        final(s)@ == old(s)@ + cs@,
{
    let n: usize = cs.len();
    let mut i: usize = 0;
    while i < n
        invariant
            i <= n,
            n == cs@.len(),
            s@ == old(s)@ + cs@.take(i as int),
        decreases n - i,
    {
        push_char(s, cs[i]);
        i = i + 1;
        assert(cs@.take(i as int) =~= cs@.take(i - 1).push(cs@[i - 1]));
        assert(s@ =~= old(s)@ + cs@.take(i as int));
    }
    assert(cs@.take(n as int) =~= cs@);
}

/// The string made of the given characters.
pub fn string_of(cs: &[char]) -> (r: String)
    ensures
        r@ == cs@,
{
    let mut s = String::new();
    push_chars(&mut s, cs);
    assert(s@ =~= cs@);
    s
}

/// Join two pieces of text.
pub fn concat(a: &str, b: &str) -> (r: String)
    ensures
        r@ == a@ + b@,
{
    let mut s = a.to_owned();
    s.append(b);
    s
}

/// Whether two strings hold the same text.
pub fn same_text(a: &str, b: &str) -> (r: bool)
    ensures
        r == (a@ == b@),
{
    let x = a.to_owned();
    let y = b.to_owned();
    x == y
}

/// Whether `s` begins with `p`.
pub open spec fn starts_with(s: Seq<char>, p: Seq<char>) -> bool {
    p.len() <= s.len() && s.take(p.len() as int) == p
}

/// Whether `s` ends with `t`.
pub open spec fn ends_with(s: Seq<char>, t: Seq<char>) -> bool {
    t.len() <= s.len() && s.skip(s.len() - t.len()) == t
}

/// Whether `s` begins with `p`.
pub fn has_prefix(s: &[char], p: &[char]) -> (r: bool)
    ensures
        r == starts_with(s@, p@),
{
    let n: usize = p.len();
    if s.len() < n {
        return false;
    }
    let mut i: usize = 0;
    while i < n
        invariant
            i <= n,
            n == p@.len(),
            n <= s@.len(),
            s@.take(i as int) == p@.take(i as int),
        decreases n - i,
    {
        if s[i] != p[i] {
            assert(s@.take(n as int)[i as int] != p@[i as int]);
            return false;
        }
        i = i + 1;
        assert(s@.take(i as int) =~= p@.take(i as int));
    }
    assert(p@.take(n as int) =~= p@);
    true
}

/// Whether `s` ends with `t`.
pub fn has_suffix(s: &[char], t: &[char]) -> (r: bool)
    ensures
        r == ends_with(s@, t@),
{
    let n: usize = t.len();
    if s.len() < n {
        return false;
    }
    let start: usize = s.len() - n;
    let mut i: usize = 0;
    while i < n
        invariant
            i <= n,
            n == t@.len(),
            start + n == s@.len(),
            start + n <= usize::MAX,
            forall|k: int| 0 <= k < i ==> s@[start + k] == t@[k],
        decreases n - i,
    {
        if s[start + i] != t[i] {
            assert(s@.skip(start as int)[i as int] != t@[i as int]);
            return false;
        }
        i = i + 1;
    }
    assert(s@.skip(start as int) =~= t@);
    true
}

/// Whether `a` comes before `b` in code-point order, which is also the order of
/// their UTF-8 bytes.
pub open spec fn text_before(a: Seq<char>, b: Seq<char>) -> bool
    decreases a.len(),
{
    if b.len() == 0 {
        false
    } else if a.len() == 0 {
        true
    } else if a[0] == b[0] {
        text_before(a.skip(1), b.skip(1))
    } else {
        (a[0] as int) < (b[0] as int)
    }
}

/// The order of names is strict: nothing comes before itself.
pub proof fn lemma_text_before_irreflexive(a: Seq<char>)
    ensures
        !text_before(a, a),
    decreases a.len(),
{
    if a.len() > 0 {
        lemma_text_before_irreflexive(a.skip(1));
    }
}

/// The order of names is transitive.
pub proof fn lemma_text_before_transitive(a: Seq<char>, b: Seq<char>, c: Seq<char>)
    requires
        text_before(a, b),
        text_before(b, c),
    ensures
        text_before(a, c),
    decreases a.len(),
{
    if a.len() > 0 && a[0] == b[0] && b[0] == c[0] {
        lemma_text_before_transitive(a.skip(1), b.skip(1), c.skip(1));
    }
}

/// The order of names is total.
pub proof fn lemma_text_before_total(a: Seq<char>, b: Seq<char>)
    ensures
        text_before(a, b) || text_before(b, a) || a == b,
    decreases a.len(),
{
    if a.len() == 0 || b.len() == 0 {
        if a.len() == 0 && b.len() == 0 {
            assert(a =~= b);
        }
    } else if a[0] == b[0] {
        lemma_text_before_total(a.skip(1), b.skip(1));
        if a.skip(1) == b.skip(1) {
            assert(a =~= seq![a[0]] + a.skip(1));
            assert(b =~= seq![b[0]] + b.skip(1));
        }
    } else {
        assert(a[0] as int != b[0] as int);
    }
}

/// The order only looks at what follows a common prefix.
proof fn lemma_text_before_prefix(a: Seq<char>, b: Seq<char>, n: int)
    requires
        0 <= n <= a.len(),
        n <= b.len(),
        a.take(n) == b.take(n),
    ensures
        text_before(a, b) == text_before(a.skip(n), b.skip(n)),
    decreases n,
{
    if n == 0 {
        assert(a.skip(0) =~= a);
        assert(b.skip(0) =~= b);
    } else {
        assert(a[0] == a.take(n)[0] && b[0] == b.take(n)[0]);
        assert(a.skip(1).take(n - 1) =~= a.take(n).skip(1));
        assert(b.skip(1).take(n - 1) =~= b.take(n).skip(1));
        lemma_text_before_prefix(a.skip(1), b.skip(1), n - 1);
        assert(a.skip(1).skip(n - 1) =~= a.skip(n));
        assert(b.skip(1).skip(n - 1) =~= b.skip(n));
    }
}

/// The code point of a character.
fn code_point(c: char) -> (r: u32)
    ensures
        r == c as int,
{
    c as u32
}

/// Whether `a` comes before `b` in code-point order.
pub fn before(a: &[char], b: &[char]) -> (r: bool)
    ensures
        r == text_before(a@, b@),
{
    let mut i: usize = 0;
    while i < a.len() && i < b.len() && a[i] == b[i]
        invariant
            i <= a@.len(),
            i <= b@.len(),
            a@.take(i as int) == b@.take(i as int),
        decreases a@.len() - i,
    {
        i = i + 1;
        assert(a@.take(i as int) =~= b@.take(i as int));
    }
    proof {
        lemma_text_before_prefix(a@, b@, i as int);
    }
    if i >= b.len() {
        return false;
    }
    if i >= a.len() {
        return true;
    }
    assert(a@.skip(i as int)[0] == a@[i as int]);
    assert(b@.skip(i as int)[0] == b@[i as int]);
    code_point(a[i]) < code_point(b[i])
}

/// The decimal digit for `d`.
pub open spec fn digit(d: nat) -> char {
    (48 + d) as char
}

/// The decimal notation of `n`.
pub open spec fn decimal(n: nat) -> Seq<char>
    decreases n,
{
    if n < 10 {
        seq![digit(n)]
    } else {
        decimal(n / 10).push(digit(n % 10))
    }
}

/// Append the decimal notation of `n`.
pub fn push_decimal(s: &mut String, n: u64)
    ensures
        final(s)@ == old(s)@ + decimal(n as nat),
    decreases n,
{
    if n >= 10 {
        push_decimal(s, n / 10);
    }
    let d: u8 = (n % 10) as u8;
    let c: char = (48 + d) as char;
    push_char(s, c);
    assert(s@ =~= old(s)@ + decimal(n as nat));
}

/// The decimal notation of a signed number.
pub open spec fn decimal_signed(v: int) -> Seq<char> {
    if v < 0 {
        seq!['-'] + decimal((-v) as nat)
    } else {
        decimal(v as nat)
    }
}

/// Append the decimal notation of a signed number.
pub fn push_signed(s: &mut String, v: i64)
    ensures
        final(s)@ == old(s)@ + decimal_signed(v as int),
{
    if v < 0 {
        push_char(s, '-');
        // Taken apart so that the magnitude of the smallest number fits.
        let magnitude: u64 = (0 - (v + 1)) as u64 + 1;
        push_decimal(s, magnitude);
        assert(s@ =~= old(s)@ + decimal_signed(v as int));
    } else {
        push_decimal(s, v as u64);
    }
}

/// The hexadecimal digit of value `d`.
pub open spec fn hex_digit(d: nat) -> char {
    if d < 10 {
        digit(d)
    } else {
        (87 + d) as char
    }
}

/// The hexadecimal notation of `n`, in lower case.
pub open spec fn hex(n: nat) -> Seq<char>
    decreases n,
{
    if n < 16 {
        seq![hex_digit(n)]
    } else {
        hex(n / 16).push(hex_digit(n % 16))
    }
}

/// Append the hexadecimal notation of `n`.
pub fn push_hex(s: &mut String, n: u64)
    ensures
        final(s)@ == old(s)@ + hex(n as nat),
    decreases n,
{
    if n >= 16 {
        push_hex(s, n / 16);
    }
    let d: u8 = (n % 16) as u8;
    let c: char = if d < 10 {
        (48 + d) as char
    } else {
        (87 + d) as char
    };
    push_char(s, c);
    assert(s@ =~= old(s)@ + hex(n as nat));
}

/// The value of a decimal digit.
pub open spec fn digit_value(c: char) -> int {
    c as int - 48
}

/// Whether `s` consists of decimal digits.
pub open spec fn all_digits(s: Seq<char>) -> bool {
    forall|i: int| 0 <= i < s.len() ==> 0 <= digit_value(#[trigger] s[i]) <= 9
}

/// The number that decimal digits stand for.
pub open spec fn digits_value(s: Seq<char>) -> int
    decreases s.len(),
{
    if s.len() == 0 {
        0
    } else {
        10 * digits_value(s.drop_last()) + digit_value(s.last())
    }
}

/// The text that an optional string holds.
pub open spec fn opt_text(s: Option<String>) -> Option<Seq<char>> {
    match s {
        Some(t) => Some(t@),
        None => None,
    }
}

/// The pieces of `s` between occurrences of `sep`, empty pieces included.
pub open spec fn split_on(s: Seq<char>, sep: char) -> Seq<Seq<char>>
    decreases s.len(),
{
    if s.len() == 0 {
        seq![Seq::<char>::empty()]
    } else {
        let before = split_on(s.drop_last(), sep);
        if s.last() == sep {
            before.push(Seq::empty())
        } else {
            before.drop_last().push(before.last().push(s.last()))
        }
    }
}

/// There is always at least one piece.
pub proof fn lemma_split_nonempty(s: Seq<char>, sep: char)
    ensures
        split_on(s, sep).len() > 0,
    decreases s.len(),
{
    if s.len() > 0 {
        lemma_split_nonempty(s.drop_last(), sep);
    }
}

/// A piece without `sep` after a `sep` is one more piece.
pub proof fn lemma_split_append(s: Seq<char>, sep: char, seg: Seq<char>)
    requires
        !seg.contains(sep),
    ensures
        split_on(s.push(sep) + seg, sep) == split_on(s, sep).push(seg),
    decreases seg.len(),
{
    if seg.len() == 0 {
        assert(s.push(sep) + seg =~= s.push(sep));
        assert(s.push(sep).drop_last() =~= s);
        assert(seg =~= Seq::<char>::empty());
    } else {
        let short = seg.drop_last();
        assert(seg[seg.len() - 1] != sep) by {
            assert(seg.contains(seg[seg.len() - 1]));
        }
        lemma_drop_last_lacks(seg, sep);
        lemma_split_append(s, sep, short);
        let whole = s.push(sep) + seg;
        assert(whole.drop_last() =~= s.push(sep) + short);
        assert(whole.last() == seg.last());
        let before = split_on(s, sep).push(short);
        assert(before.drop_last() =~= split_on(s, sep));
        assert(short.push(seg.last()) =~= seg);
    }
}

/// The pieces on both sides of a `sep` are the pieces of the whole.
pub proof fn lemma_split_join(a: Seq<char>, sep: char, b: Seq<char>)
    ensures
        split_on(a.push(sep) + b, sep) == split_on(a, sep) + split_on(b, sep),
    decreases b.len(),
{
    let whole = a.push(sep) + b;
    if b.len() == 0 {
        assert(whole =~= a.push(sep));
        assert(whole.drop_last() =~= a);
        assert(split_on(a, sep).push(Seq::<char>::empty()) =~= split_on(a, sep) + split_on(b, sep));
    } else {
        let short = b.drop_last();
        lemma_split_join(a, sep, short);
        lemma_split_nonempty(short, sep);
        assert(whole.drop_last() =~= a.push(sep) + short);
        assert(whole.last() == b.last());
        let before = split_on(a, sep) + split_on(short, sep);
        assert(before.last() == split_on(short, sep).last());
        assert(before.drop_last() =~= split_on(a, sep) + split_on(short, sep).drop_last());
        assert(split_on(whole, sep) =~= split_on(a, sep) + split_on(b, sep));
    }
}

/// Text without `sep` is a single piece.
pub proof fn lemma_split_single(seg: Seq<char>, sep: char)
    requires
        !seg.contains(sep),
    ensures
        split_on(seg, sep) == seq![seg],
    decreases seg.len(),
{
    if seg.len() == 0 {
        assert(seg =~= Seq::<char>::empty());
    } else {
        let short = seg.drop_last();
        assert(seg.contains(seg[seg.len() - 1]));
        lemma_drop_last_lacks(seg, sep);
        lemma_split_single(short, sep);
        assert(short.push(seg.last()) =~= seg);
        assert(split_on(seg, sep) =~= seq![seg]);
    }
}

proof fn lemma_drop_last_lacks(seg: Seq<char>, sep: char)
    requires
        seg.len() > 0,
        !seg.contains(sep),
    ensures
        !seg.drop_last().contains(sep),
{
    let short = seg.drop_last();
    if short.contains(sep) {
        let k = choose|k: int| 0 <= k < short.len() && short[k] == sep;
        assert(seg[k] == sep);
    }
}

/// The texts of a vector of character vectors.
pub open spec fn texts(v: Seq<Vec<char>>) -> Seq<Seq<char>> {
    Seq::new(v.len(), |i: int| v[i]@)
}

/// Cut characters into the pieces between occurrences of `sep`.
pub fn split_chars(cs: &[char], sep: char) -> (r: Vec<Vec<char>>)
    ensures
        texts(r@) == split_on(cs@, sep),
{
    let mut out: Vec<Vec<char>> = Vec::new();
    let mut seg: Vec<char> = Vec::new();
    let mut i: usize = 0;
    let n: usize = cs.len();
    proof {
        assert(cs@.take(0) =~= Seq::<char>::empty());
        assert(split_on(cs@.take(0), sep).drop_last() =~= texts(out@));
    }
    while i < n
        invariant
            i <= n,
            n == cs@.len(),
            split_on(cs@.take(i as int), sep).len() > 0,
            split_on(cs@.take(i as int), sep).last() == seg@,
            split_on(cs@.take(i as int), sep).drop_last() == texts(out@),
        decreases n - i,
    {
        let c: char = cs[i];
        let ghost done = cs@.take(i as int);
        let ghost next = cs@.take(i + 1);
        let ghost before = split_on(done, sep);
        let ghost out0 = out@;
        assert(next.drop_last() =~= done);
        assert(next.last() == c);
        if c == sep {
            let ghost s0 = seg@;
            out.push(seg);
            seg = Vec::new();
            assert(seg@ =~= Seq::<char>::empty());
            assert(split_on(next, sep).drop_last() =~= before);
            assert(texts(out@) =~= texts(out0).push(s0));
            assert(before =~= before.drop_last().push(before.last()));
        } else {
            seg.push(c);
            assert(split_on(next, sep).drop_last() =~= before.drop_last());
        }
        i = i + 1;
    }
    assert(cs@.take(n as int) =~= cs@);
    let ghost out0 = out@;
    let ghost s0 = seg@;
    out.push(seg);
    assert(texts(out@) =~= texts(out0).push(s0));
    assert(split_on(cs@, sep) =~= split_on(cs@, sep).drop_last().push(s0));
    out
}

/// White space as Unicode has it.
pub open spec fn is_white(c: char) -> bool {
    let n = c as u32;
    0x09 <= n <= 0x0d || n == 0x20 || n == 0x85 || n == 0xa0 || n == 0x1680 || 0x2000 <= n <= 0x200a
        || n == 0x2028 || n == 0x2029 || n == 0x202f || n == 0x205f || n == 0x3000
}

/// `s` without the white space in front.
pub open spec fn trimmed_front(s: Seq<char>) -> Seq<char>
    decreases s.len(),
{
    if s.len() > 0 && is_white(s[0]) {
        trimmed_front(s.skip(1))
    } else {
        s
    }
}

/// `s` without the white space at its end.
pub open spec fn trimmed_end(s: Seq<char>) -> Seq<char>
    decreases s.len(),
{
    if s.len() > 0 && is_white(s.last()) {
        trimmed_end(s.drop_last())
    } else {
        s
    }
}

/// `s` without the white space at both ends.
pub open spec fn trimmed(s: Seq<char>) -> Seq<char> {
    trimmed_end(trimmed_front(s))
}

/// Whether `c` is white space.
pub fn is_blank(c: char) -> (r: bool)
    ensures
        r == is_white(c),
{
    let n: u32 = c as u32;
    (0x09 <= n && n <= 0x0d) || n == 0x20 || n == 0x85 || n == 0xa0 || n == 0x1680 || (0x2000 <= n
        && n <= 0x200a) || n == 0x2028 || n == 0x2029 || n == 0x202f || n == 0x205f || n == 0x3000
}

/// A text without the white space at both ends.
pub fn trim_text(s: &str) -> (r: String)
    ensures
        r@ == trimmed(s@),
{
    let cs = chars_of(s);
    let n: usize = cs.len();
    let mut from: usize = 0;
    assert(cs@.skip(0) =~= cs@);
    while from < n && is_blank(cs[from])
        invariant
            from <= n,
            n == cs@.len(),
            trimmed_front(cs@) == trimmed_front(cs@.skip(from as int)),
        decreases n - from,
    {
        assert(cs@.skip(from as int)[0] == cs@[from as int]);
        assert(cs@.skip(from as int).skip(1) =~= cs@.skip(from as int + 1));
        from = from + 1;
    }
    let ghost front = cs@.skip(from as int);
    assert(trimmed_front(front) == front) by {
        if from < n {
            assert(front[0] == cs@[from as int]);
        }
    }
    let mut to: usize = n;
    assert(cs@.subrange(from as int, n as int) =~= front);
    while to > from && is_blank(cs[to - 1])
        invariant
            from <= to <= n,
            n == cs@.len(),
            trimmed_end(front) == trimmed_end(cs@.subrange(from as int, to as int)),
        decreases to,
    {
        let ghost part = cs@.subrange(from as int, to as int);
        assert(part.last() == cs@[to - 1]);
        assert(part.drop_last() =~= cs@.subrange(from as int, to - 1));
        to = to - 1;
    }
    proof {
        let part = cs@.subrange(from as int, to as int);
        if to > from {
            assert(part.last() == cs@[to - 1]);
        }
    }
    string_of(&cs[from..to])
}

/// The decimal notation of a number is read as that number: digits only, the last of
/// which counts for itself and each other one for ten times what it would behind it. A
/// number of several digits does not begin with 0.
pub proof fn law_decimal_reads_back(n: nat)
    ensures
        decimal(n).len() > 0,
        forall|i: int| 0 <= i < decimal(n).len() ==> '0' <= #[trigger] decimal(n)[i] <= '9',
        digits_value(decimal(n)) == n,
        decimal(n).len() > 1 ==> decimal(n)[0] != '0',
    decreases n,
{
    reveal_with_fuel(digits_value, 2);
    if n < 10 {
        assert(decimal(n).drop_last() =~= Seq::<char>::empty());
        assert(digit_value(digit(n)) == n);
    } else {
        let init = decimal(n / 10);
        law_decimal_reads_back(n / 10);
        assert(decimal(n).drop_last() =~= init);
        assert(digit_value(digit(n % 10)) == n % 10);
        assert forall|i: int| 0 <= i < decimal(n).len() implies '0' <= #[trigger] decimal(n)[i]
            <= '9' by {
            if i < init.len() {
                assert(decimal(n)[i] == init[i]);
            }
        }
        assert(decimal(n)[0] == init[0]);
        if init.len() == 1 {
            reveal_with_fuel(digits_value, 2);
            assert(init.drop_last() =~= Seq::<char>::empty());
            assert(digits_value(init) == digit_value(init[0]));
        }
    }
}

/// A digit more makes ten times the number, and the digit.
pub proof fn law_digits_count_tens(s: Seq<char>, c: char)
    ensures
        digits_value(Seq::empty()) == 0,
        digits_value(s.push(c)) == 10 * digits_value(s) + (c as int - '0' as int),
{
    reveal_with_fuel(digits_value, 2);
    assert(s.push(c).drop_last() =~= s);
}

/// A negative number is its absolute value behind a minus sign, and any other one has
/// no sign.
pub proof fn law_sign_stands_in_front(v: int)
    ensures
        v < 0 ==> decimal_signed(v)[0] == '-' && digits_value(decimal_signed(v).skip(1)) == -v,
        v >= 0 ==> digits_value(decimal_signed(v)) == v && '0' <= decimal_signed(v)[0] <= '9',
{
    if v < 0 {
        law_decimal_reads_back((-v) as nat);
        assert(decimal_signed(v).skip(1) =~= decimal((-v) as nat));
    } else {
        law_decimal_reads_back(v as nat);
        assert('0' <= decimal(v as nat)[0] <= '9');
    }
}

/// The hexadecimal notation of a number ends with the digit of its remainder by 16, in
/// lower case, behind the notation of its sixteenth part, which is left out if it is 0.
pub proof fn law_hex_digits(n: nat)
    ensures
        hex(n).len() > 0,
        n % 16 < 10 ==> hex(n).last() as int == '0' as int + n % 16,
        n % 16 >= 10 ==> hex(n).last() as int == 'a' as int + (n % 16 - 10),
        n < 16 ==> hex(n).len() == 1,
        n >= 16 ==> hex(n).drop_last() == hex(n / 16),
{
    if n >= 16 {
        assert(hex(n).drop_last() =~= hex(n / 16));
    }
}

/// Of two texts with a common front, that comes first which ends there, or whose next
/// character has the lower code point.
pub proof fn law_order_is_lexical(a: Seq<char>, b: Seq<char>, n: int)
    requires
        0 <= n <= a.len(),
        n <= b.len(),
        a.take(n) == b.take(n),
    ensures
        n == a.len() && n < b.len() ==> text_before(a, b) && !text_before(b, a),
        n < a.len() && n < b.len() && (a[n] as int) < (b[n] as int) ==> text_before(a, b)
            && !text_before(b, a),
{
    lemma_text_before_prefix(a, b, n);
    lemma_text_before_prefix(b, a, n);
}

/// A text begins, or ends, with another one exactly if the other one and something
/// behind it, or before it, make the text.
pub proof fn law_prefix_and_suffix(whole: Seq<char>, part: Seq<char>, other: Seq<char>)
    ensures
        starts_with(part + other, part),
        ends_with(other + part, part),
        starts_with(whole, part) ==> whole == part + whole.skip(part.len() as int),
        ends_with(whole, part) ==> whole == whole.take(whole.len() - part.len()) + part,
{
    assert((part + other).take(part.len() as int) =~= part);
    assert((other + part).skip((other + part).len() - part.len()) =~= part);
    if starts_with(whole, part) {
        assert(whole =~= part + whole.skip(part.len() as int));
    }
    if ends_with(whole, part) {
        assert(whole =~= whole.take(whole.len() - part.len()) + part);
    }
}

/// Trimming takes away white space at both ends, and nothing else: what is left neither
/// begins nor ends with white space, and stands in the text between white space.
pub proof fn law_trimmed_is_inner_text(s: Seq<char>)
    ensures
        ({
            let t = trimmed(s);
            let from = s.len() - trimmed_front(s).len();
            &&& 0 <= from
            &&& from + t.len() <= s.len()
            &&& t == s.subrange(from, from + t.len())
            &&& forall|i: int| 0 <= i < from ==> is_white(#[trigger] s[i])
            &&& forall|i: int| from + t.len() <= i < s.len() ==> is_white(#[trigger] s[i])
            &&& t.len() > 0 ==> !is_white(t[0]) && !is_white(t.last())
        }),
{
    lemma_trimmed_front(s);
    let f = trimmed_front(s);
    lemma_trimmed_end(f);
    let t = trimmed(s);
    let from = s.len() - f.len();
    assert(t =~= s.subrange(from, from + t.len()));
    assert forall|i: int| from + t.len() <= i < s.len() implies is_white(#[trigger] s[i]) by {
        assert(f[i - from] == s[i]);
    }
}

proof fn lemma_trimmed_front(s: Seq<char>)
    ensures
        trimmed_front(s).len() <= s.len(),
        trimmed_front(s) == s.skip(s.len() - trimmed_front(s).len()),
        forall|i: int| 0 <= i < s.len() - trimmed_front(s).len() ==> is_white(#[trigger] s[i]),
        trimmed_front(s).len() > 0 ==> !is_white(trimmed_front(s)[0]),
    decreases s.len(),
{
    if s.len() > 0 && is_white(s[0]) {
        lemma_trimmed_front(s.skip(1));
        let n = s.len() - trimmed_front(s).len();
        assert(trimmed_front(s) =~= s.skip(n));
        assert forall|i: int| 0 <= i < n implies is_white(#[trigger] s[i]) by {
            if i > 0 {
                assert(s.skip(1)[i - 1] == s[i]);
            }
        }
    } else {
        assert(s =~= s.skip(0));
    }
}

proof fn lemma_trimmed_end(s: Seq<char>)
    ensures
        trimmed_end(s).len() <= s.len(),
        trimmed_end(s) == s.take(trimmed_end(s).len() as int),
        forall|i: int| trimmed_end(s).len() <= i < s.len() ==> is_white(#[trigger] s[i]),
        trimmed_end(s).len() > 0 ==> !is_white(trimmed_end(s).last()),
    decreases s.len(),
{
    if s.len() > 0 && is_white(s.last()) {
        lemma_trimmed_end(s.drop_last());
        let t = trimmed_end(s);
        assert(t =~= s.take(t.len() as int));
        assert forall|i: int| t.len() <= i < s.len() implies is_white(#[trigger] s[i]) by {
            if i < s.len() - 1 {
                assert(s.drop_last()[i] == s[i]);
            }
        }
    } else {
        assert(s =~= s.take(s.len() as int));
    }
}

/// Blanks, tabs and line breaks are white space, and no other ASCII character that is
/// printed is.
pub proof fn law_ascii_white_space(c: char)
    ensures
        c == ' ' || c == '\t' || c == '\n' || c == '\r' ==> is_white(c),
        '!' <= c <= '~' ==> !is_white(c),
{
}

/// Beyond ASCII the next line, the no-break spaces, the spaces of a given width and the
/// separators of lines and paragraphs are white space. The zero-width space and what
/// joins words are none, nor is any letter.
pub proof fn law_wide_white_space(c: char)
    ensures
        c as u32 > 0x7f ==> (is_white(c) <==> {
            ||| c == '\u{85}'
            ||| c == '\u{a0}' || c == '\u{202f}'
            ||| c == '\u{1680}' || c == '\u{205f}' || c == '\u{3000}'
            ||| '\u{2000}' <= c <= '\u{200a}'
            ||| c == '\u{2028}' || c == '\u{2029}'
        }),
        c as u32 <= 0x7f ==> (is_white(c) <==> c == ' ' || '\t' <= c <= '\r'),
{
}

} // verus!
