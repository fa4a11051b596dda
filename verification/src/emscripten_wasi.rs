//! `wasi_snapshot_preview1` functions for guests that import their memory.
//!
//! Each function performs one call on the in-memory filesystem, the captured
//! output and guest memory. All of them are deterministic: there is no real
//! clock, no real randomness and no real I/O. Results are positive WASI errno
//! values, 0 on success.

use vstd::prelude::*;
use vstd::utf8::{decode_utf8, encode_utf8, is_ascii_chars_encode_utf8, valid_utf8};

use crate::bytes::{
    addr, addr_of, bytes_at, guest_range, in_range, law_le_round_trip, law_splice_reads_back,
    law_word_digits, le_bytes, le_limit, le_value, lemma_le_bytes_len, lemma_word_reads_back,
    read_bytes, splice, u32_at, u32_bytes, u64_bytes, word_at, write_at, write_bytes, write_u32,
    write_u64, zeros,
};
use crate::emscripten_abi::VIRTUAL_EPOCH_NS;
use crate::emscripten_fs::{
    node_size, read_len, read_slice, resolved, seek_target, wants_create, wants_truncate,
    wants_write, FsNode, FsView, InMemFs, NodeView,
};
use crate::emscripten_multiprocessing::ProcessState;
use crate::emscripten_syscall::{
    buffers, collect_buffers, law_chunks_join_in_file, law_chunks_join_in_output, lemma_no_pipes,
    put_chunks, streams, Streams,
};
use crate::fs_laws::{law_open_effects, law_open_is_fresh};
use crate::fs_path::{
    is_canonical, law_canonical_fixes_canonical, law_canonical_is_canonical,
};
use crate::fs_records::zero_bytes;
use crate::text::{decimal_signed, push_signed, string_from_utf8};

verus! {

/// Bad file descriptor.
pub const EBADF: i32 = 8;

/// Invalid argument.
pub const EINVAL: i32 = 28;

/// No such file or directory.
pub const ENOENT: i32 = 44;

/// The first variable of the guest's environment: it makes CPython pass output
/// on at once, so that what is printed reaches `fd_write`.
pub open spec fn unbuffered() -> Seq<u8> {
    encode_utf8("PYTHONUNBUFFERED=1"@).push(0u8)
}

/// The second variable of the guest's environment: the home directory, by which
/// `~` resolves.
pub open spec fn home() -> Seq<u8> {
    encode_utf8("HOME=/home/burn"@).push(0u8)
}

/// The number of variables in the guest's environment.
pub const ENVIRON_COUNT: u32 = 2;

/// The bytes that the variables take, each with its NUL.
pub const ENVIRON_BYTES: u32 = 35;

/// The sizes that a guest is told are those of the variables that it gets.
pub proof fn law_environ_sizes()
    ensures
        unbuffered().len() == 19,
        home().len() == 16,
        unbuffered().len() + home().len() == ENVIRON_BYTES,
{
    reveal_strlit("PYTHONUNBUFFERED=1");
    reveal_strlit("HOME=/home/burn");
    is_ascii_chars_encode_utf8("PYTHONUNBUFFERED=1"@);
    is_ascii_chars_encode_utf8("HOME=/home/burn"@);
}

/// Storing two words: memory afterwards and 0, or 1 if one of them has no place,
/// after what came before it was stored.
pub open spec fn two_words(mem: Seq<u8>, a: i32, va: nat, b: i32, vb: nat) -> (Seq<u8>, i32) {
    if !guest_range(mem, a, 4) {
        (mem, 1i32)
    } else {
        let m = splice(mem, addr(a), le_bytes(va, 4));
        if !guest_range(mem, b, 4) {
            (m, 1i32)
        } else {
            (splice(m, addr(b), le_bytes(vb, 4)), 0i32)
        }
    }
}

fn put_two_words(mem: &mut [u8], a: i32, va: u32, b: i32, vb: u32) -> (r: i32)
    ensures
        (final(mem)@, r) == two_words(old(mem)@, a, va as nat, b, vb as nat),
{
    proof {
        lemma_le_bytes_len(va as nat, 4);
    }
    if !write_u32(mem, a, va) {
        return 1;
    }
    if !write_u32(mem, b, vb) {
        return 1;
    }
    0
}

/// `environ_sizes_get`: the number and the size of the variables.
pub fn environ_sizes_get(mem: &mut [u8], count_ptr: i32, buf_size_ptr: i32) -> (r: i32)
    ensures
        (final(mem)@, r) == two_words(
            old(mem)@,
            count_ptr,
            ENVIRON_COUNT as nat,
            buf_size_ptr,
            ENVIRON_BYTES as nat,
        ),
{
    put_two_words(mem, count_ptr, ENVIRON_COUNT, buf_size_ptr, ENVIRON_BYTES)
}

/// Storing a variable at `at` and the pointer to it at `slot`: memory afterwards
/// and whether both had a place.
pub open spec fn var_stored(mem: Seq<u8>, slot: int, at: int, var: Seq<u8>) -> (Seq<u8>, bool) {
    if at + var.len() > mem.len() {
        (mem, false)
    } else {
        let m = splice(mem, at, var);
        if slot + 4 > mem.len() {
            (m, false)
        } else {
            (splice(m, slot, le_bytes(at as nat, 4)), true)
        }
    }
}

fn put_var(mem: &mut [u8], slot: u32, at: u32, var: &[u8]) -> (ok: bool)
    ensures
        (final(mem)@, ok) == var_stored(old(mem)@, slot as int, at as int, var@),
{
    let len: usize = mem.len();
    if !in_range(len, at as usize, var.len()) {
        return false;
    }
    write_at(mem, at as usize, var);
    if !in_range(len, slot as usize, 4) {
        return false;
    }
    let pointer = u32_bytes(at);
    proof {
        lemma_le_bytes_len(at as nat, 4);
    }
    write_at(mem, slot as usize, &pointer);
    true
}

/// Storing the variables: memory afterwards, and 0 or 1.
pub open spec fn environ_told(mem: Seq<u8>, environ_ptr: i32, buf_ptr: i32) -> (Seq<u8>, i32) {
    let slot = environ_ptr as u32;
    let at = buf_ptr as u32;
    let first = var_stored(mem, slot as int, at as int, unbuffered());
    if !first.1 {
        (first.0, 1i32)
    } else {
        let second = var_stored(
            first.0,
            slot.wrapping_add(4) as int,
            at.wrapping_add(19) as int,
            home(),
        );
        (
            second.0,
            if second.1 {
                0i32
            } else {
                1i32
            },
        )
    }
}

/// The pointers at `environ_ptr` lead to the variables: the first to the C string
/// `PYTHONUNBUFFERED=1`, the second to `HOME=/home/burn`, right behind it. The two
/// places must lie inside memory and have no byte in common.
pub proof fn law_environ_leads_to_variables(mem: Seq<u8>, environ_ptr: i32, buf_ptr: i32)
    requires
        environ_ptr as u32 + 8 <= mem.len() <= 0x1_0000_0000,
        buf_ptr as u32 + 35 <= mem.len(),
        environ_ptr as u32 + 8 <= buf_ptr as u32 || buf_ptr as u32 + 35 <= environ_ptr as u32,
    ensures
        ({
            let (m, r) = environ_told(mem, environ_ptr, buf_ptr);
            let a = word_at(m, environ_ptr as u32 as int) as int;
            let b = word_at(m, environ_ptr as u32 + 4) as int;
            &&& r == 0
            &&& m.len() == mem.len()
            &&& a + 19 <= m.len()
            &&& m.subrange(a, a + 19) == encode_utf8("PYTHONUNBUFFERED=1"@).push(0u8)
            &&& b + 16 <= m.len()
            &&& m.subrange(b, b + 16) == encode_utf8("HOME=/home/burn"@).push(0u8)
            &&& b == a + 19
        }),
{
    law_environ_sizes();
    let slot = environ_ptr as u32 as int;
    let at = buf_ptr as u32 as int;
    let m1 = splice(mem, at, unbuffered());
    let m2 = splice(m1, slot, le_bytes(at as nat, 4));
    let m3 = splice(m2, at + 19, home());
    let m4 = splice(m3, slot + 4, le_bytes((at + 19) as nat, 4));
    lemma_le_bytes_len(at as nat, 4);
    lemma_le_bytes_len((at + 19) as nat, 4);
    assert(environ_told(mem, environ_ptr, buf_ptr).0 == m4);
    lemma_word_reads_back(m1, slot, at as nat);
    lemma_word_reads_back(m3, slot + 4, (at + 19) as nat);
    assert(m4.subrange(slot, slot + 4) =~= m2.subrange(slot, slot + 4));
    assert(m4.subrange(at, at + 19) =~= unbuffered());
    assert(m4.subrange(at + 19, at + 35) =~= home());
}

/// `environ_get`: the variables, one behind the other, go to `buf_ptr`, and a
/// pointer to each to `environ_ptr`. Returns 1 if something has no place in
/// memory, after what came before it was stored.
pub fn environ_get(mem: &mut [u8], environ_ptr: i32, buf_ptr: i32) -> (r: i32)
    ensures
        (final(mem)@, r) == environ_told(old(mem)@, environ_ptr, buf_ptr),
{
    let mut first = vstd::slice::slice_to_vec("PYTHONUNBUFFERED=1".as_bytes());
    first.push(0);
    let mut second = vstd::slice::slice_to_vec("HOME=/home/burn".as_bytes());
    second.push(0);
    assert(first@ =~= unbuffered());
    assert(second@ =~= home());
    let slot: u32 = environ_ptr as u32;
    let at: u32 = buf_ptr as u32;
    if !put_var(mem, slot, at, &first) {
        return 1;
    }
    if put_var(mem, slot.wrapping_add(4), at.wrapping_add(19), &second) {
        0
    } else {
        1
    }
}

/// `args_sizes_get`: there are no arguments.
pub fn args_sizes_get(mem: &mut [u8], argc_ptr: i32, argv_buf_size_ptr: i32) -> (r: i32)
    ensures
        (final(mem)@, r) == two_words(old(mem)@, argc_ptr, 0, argv_buf_size_ptr, 0),
{
    put_two_words(mem, argc_ptr, 0, argv_buf_size_ptr, 0)
}

/// Storing a count: memory afterwards and 0, or `EBADF` if it has no place.
pub open spec fn count_put(mem: Seq<u8>, ptr: i32, n: nat) -> (Seq<u8>, i32) {
    if guest_range(mem, ptr, 4) {
        (splice(mem, addr(ptr), le_bytes(n, 4)), 0i32)
    } else {
        (mem, EBADF)
    }
}

fn put_count(mem: &mut [u8], ptr: i32, n: u32) -> (r: i32)
    ensures
        (final(mem)@, r) == count_put(old(mem)@, ptr, n as nat),
{
    if write_u32(mem, ptr, n) {
        0
    } else {
        EBADF
    }
}

/// What `fd_write` does to what the guest's output reaches and to memory.
pub open spec fn write_done(
    before: (Streams, Seq<u8>),
    after: (Streams, Seq<u8>),
    fd: i32,
    iovs_ptr: i32,
    iovs_len: i32,
    nwritten_ptr: i32,
    r: i32,
) -> bool {
    let n = iovs_len as u32;
    if !guest_range(before.1, iovs_ptr, 8 * n) {
        r == EBADF && after.0 == before.0 && after.1 == before.1
    } else {
        let list = buffers(before.1, addr(iovs_ptr), n as int);
        let done = before.0.with_chunks(fd, list.0, 0);
        &&& after.0 == done.0
        &&& match done.1 {
            Err(e) => r == 0i32.wrapping_sub(e) && after.1 == before.1,
            Ok(total) => if list.1 {
                (after.1, r) == count_put(
                    before.1,
                    nwritten_ptr,
                    total as u32 as nat,
                )
            } else {
                r == EBADF && after.1 == before.1
            },
        }
    }
}

/// `fd_write` to standard output or error captures the buffers of the list, joined, and
/// the guest reads their total length at `nwritten_ptr`. Every buffer, and the place of
/// the count, must lie inside memory.
pub proof fn law_fd_write_captures(
    before: (Streams, Seq<u8>),
    after: (Streams, Seq<u8>),
    fd: i32,
    iovs_ptr: i32,
    iovs_len: i32,
    nwritten_ptr: i32,
    r: i32,
)
    requires
        write_done(before, after, fd, iovs_ptr, iovs_len, nwritten_ptr, r),
        fd == 1 || fd == 2,
        0 <= iovs_len,
        iovs_ptr as u32 + 8 * iovs_len <= before.1.len(),
        nwritten_ptr as u32 + 4 <= before.1.len(),
        buffers(before.1, iovs_ptr as u32 as int, iovs_len as int).1,
        buffers(before.1, iovs_ptr as u32 as int, iovs_len as int).0.flatten().len() <= i32::MAX,
    ensures
        ({
            let data = buffers(before.1, iovs_ptr as u32 as int, iovs_len as int).0.flatten();
            &&& r == 0
            &&& after.0.out == before.0.out + data
            &&& after.0.fs == before.0.fs
            &&& after.1.len() == before.1.len()
            &&& word_at(after.1, nwritten_ptr as u32 as int) == data.len()
        }),
{
    let list = buffers(before.1, addr(iovs_ptr), iovs_len as int);
    assert(iovs_len as u32 == iovs_len);
    law_chunks_join_in_output(before.0, fd, list.0, 0);
    lemma_word_reads_back(before.1, addr(nwritten_ptr), list.0.flatten().len());
}

/// `fd_write` to a file in memory appends the buffers of the list, joined, and the guest
/// reads their total length at `nwritten_ptr`.
pub proof fn law_fd_write_appends(
    before: (Streams, Seq<u8>),
    after: (Streams, Seq<u8>),
    fd: i32,
    iovs_ptr: i32,
    iovs_len: i32,
    nwritten_ptr: i32,
    r: i32,
)
    requires
        write_done(before, after, fd, iovs_ptr, iovs_len, nwritten_ptr, r),
        fd >= 3,
        before.0.pipes is None,
        before.0.fs.fd_file(fd) is Ok,
        0 <= iovs_len,
        iovs_ptr as u32 + 8 * iovs_len <= before.1.len(),
        nwritten_ptr as u32 + 4 <= before.1.len(),
        buffers(before.1, iovs_ptr as u32 as int, iovs_len as int).1,
        buffers(before.1, iovs_ptr as u32 as int, iovs_len as int).0.flatten().len() <= i32::MAX,
    ensures
        ({
            let data = buffers(before.1, iovs_ptr as u32 as int, iovs_len as int).0.flatten();
            &&& r == 0
            &&& after.0.fs.fd_file(fd) == Ok::<Seq<u8>, i32>(
                before.0.fs.fd_file(fd)->Ok_0 + data,
            )
            &&& after.0.out == before.0.out
            &&& word_at(after.1, nwritten_ptr as u32 as int) == data.len()
        }),
{
    let list = buffers(before.1, addr(iovs_ptr), iovs_len as int);
    assert(iovs_len as u32 == iovs_len);
    law_chunks_join_in_file(before.0, fd, list.0, 0);
    lemma_word_reads_back(before.1, addr(nwritten_ptr), list.0.flatten().len());
}

/// `fd_write`: write the buffers that `iovs_len` descriptions at `iovs_ptr` name
/// to the captured output or to a file, and their total length to
/// `nwritten_ptr`. A list or buffer outside memory is `EBADF`; what came before
/// it is written. What goes to any other descriptor is dropped and counted.
pub fn fd_write(
    fs: &mut InMemFs,
    out: &mut Vec<u8>,
    mem: &mut [u8],
    fd: i32,
    iovs_ptr: i32,
    iovs_len: i32,
    nwritten_ptr: i32,
) -> (r: i32)
    requires
        old(fs).wf(),
    ensures
        final(fs).wf(),
        write_done(
            (streams(*old(fs), None, *old(out)), old(mem)@),
            (streams(*final(fs), None, *final(out)), final(mem)@),
            fd,
            iovs_ptr,
            iovs_len,
            nwritten_ptr,
            r,
        ),
{
    let n: usize = iovs_len as u32 as usize;
    let at: usize = addr_of(iovs_ptr);
    if at as u128 + 8 * (n as u128) > mem.len() as u128 {
        return EBADF;
    }
    let (chunks, complete): (Vec<Vec<u8>>, bool) = collect_buffers(mem, at, n);
    let mut none: Option<ProcessState> = None;
    proof {
        lemma_no_pipes(
            streams(*fs, none, *out),
            fd,
            buffers(mem@, at as int, n as int).0,
            0,
        );
    }
    let done = put_chunks(fs, &mut none, out, fd, &chunks);
    match done {
        Err(e) => 0i32.wrapping_sub(e),
        Ok(total) => if complete {
            put_count(mem, nwritten_ptr, total as u32)
        } else {
            EBADF
        },
    }
}

/// Laying a file from `at` on into `n` buffers, whose descriptions start at
/// `off` of `list`: memory afterwards, the place in the file, and the bytes laid
/// down; `None` for the count if a read failed or a buffer was outside memory.
/// The end of the file ends the walk.
pub open spec fn laid(
    list: Seq<u8>,
    off: int,
    n: int,
    file: Result<Seq<u8>, i32>,
    at: u64,
    mem: Seq<u8>,
    total: u32,
) -> (Seq<u8>, u64, Option<u32>)
    decreases n,
{
    if n <= 0 {
        (mem, at, Some(total))
    } else {
        let ptr = word_at(list, off) as int;
        let len = word_at(list, off + 4) as int;
        if len == 0 {
            laid(list, off + 8, n - 1, file, at, mem, total)
        } else {
            match file {
                Err(_) => (mem, at, None),
                Ok(data) => {
                    let k = read_len(data, at, len);
                    let next = (at + k) as u64;
                    if k == 0 {
                        (mem, at, Some(total))
                    } else if k > i32::MAX || ptr + k > mem.len() {
                        (mem, next, None)
                    } else {
                        laid(
                            list,
                            off + 8,
                            n - 1,
                            file,
                            next,
                            splice(mem, ptr, read_slice(data, at, len)),
                            total.wrapping_add(k as u32),
                        )
                    }
                },
            }
        }
    }
}

fn lay_file(
    fs: &InMemFs,
    mem: &mut [u8],
    list: &Vec<u8>,
    n: usize,
    fd: i32,
    from: u64,
) -> (r: (u64, Option<u32>))
    requires
        fs.wf(),
        list@.len() == 8 * n,
    ensures
        (final(mem)@, r.0, r.1) == laid(
            list@,
            0,
            n as int,
            fs@.fd_file(fd),
            from,
            old(mem)@,
            0,
        ),
{
    let room: usize = list.len();
    let size: usize = mem.len();
    let mut at: u64 = from;
    let mut total: u32 = 0;
    let mut i: usize = 0;
    let ghost file = fs@.fd_file(fd);
    let ghost want = laid(list@, 0, n as int, file, from, mem@, 0);
    while i < n
        invariant
            fs.wf(),
            i <= n,
            room == list@.len(),
            room == 8 * n,
            size == mem@.len(),
            file == fs@.fd_file(fd),
            want == laid(list@, 0, n as int, file, from, old(mem)@, 0),
            want == laid(list@, 8 * i, n - i, file, at, mem@, total),
        decreases n - i,
    {
        let off: usize = 8 * i;
        let ptr: usize = u32_at(list, off) as usize;
        let len: usize = u32_at(list, off + 4) as usize;
        if len != 0 {
            let mut tmp = zero_bytes(len);
            let k: usize = match fs.read_into(fd, tmp.as_mut_slice(), at) {
                Err(_) => {
                    return (at, None);
                },
                Ok(k) => k,
            };
            proof {
                let data = file->Ok_0;
                assert(tmp@.subrange(0, k as int) =~= read_slice(data, at, len as int));
            }
            if k == 0 {
                return (at, Some(total));
            }
            let next: u64 = at + k as u64;
            if k > 0x7fff_ffff || !in_range(size, ptr, k) {
                return (next, None);
            }
            write_at(mem, ptr, &tmp[0..k]);
            total = total.wrapping_add(k as u32);
            at = next;
        }
        i = i + 1;
    }
    (at, Some(total))
}

/// How many bytes the `n` buffers take whose descriptions start at `off` of `list`.
pub open spec fn room_of(list: Seq<u8>, off: int, n: int) -> int
    decreases n,
{
    if n <= 0 {
        0
    } else {
        word_at(list, off + 4) + room_of(list, off + 8, n - 1)
    }
}

/// Whether address `p` lies in none of the `n` buffers whose descriptions start at
/// `off` of `list`.
pub open spec fn in_no_buffer(list: Seq<u8>, off: int, n: int, p: int) -> bool
    decreases n,
{
    n <= 0 || (!(word_at(list, off) <= p < word_at(list, off) + word_at(list, off + 4))
        && in_no_buffer(list, off + 8, n - 1, p))
}

/// Whether no two of the `n` buffers share a byte whose descriptions start at `off` of
/// `list`.
pub open spec fn buffers_apart(list: Seq<u8>, off: int, n: int) -> bool
    decreases n,
{
    n <= 0 || ((forall|p: int|
        word_at(list, off) <= p < word_at(list, off) + word_at(list, off + 4)
            ==> #[trigger] in_no_buffer(list, off + 8, n - 1, p)) && buffers_apart(
        list,
        off + 8,
        n - 1,
    ))
}

/// After a read into several buffers that succeeds, the count is the number of bytes by
/// which the place in the file moved, in 32 bits. That is as many as are left in the
/// file, or as all buffers together take, whichever is less.
pub proof fn law_read_counts_what_moved(
    list: Seq<u8>,
    off: int,
    n: int,
    data: Seq<u8>,
    at: u64,
    mem: Seq<u8>,
    total: u32,
)
    requires
        data.len() <= u64::MAX,
        laid(list, off, n, Ok(data), at, mem, total).2 is Some,
    ensures
        ({
            let (after, to, count) = laid(list, off, n, Ok(data), at, mem, total);
            let left = if at <= data.len() {
                data.len() - at
            } else {
                0
            };
            let room = room_of(list, off, n);
            &&& after.len() == mem.len()
            &&& to - at == if left <= room {
                left
            } else {
                room
            }
            &&& count->0 as int == (total + (to - at)) % 0x1_0000_0000
        }),
    decreases n,
{
    if n > 0 {
        let ptr = word_at(list, off) as int;
        let len = word_at(list, off + 4) as int;
        if len == 0 {
            law_read_counts_what_moved(list, off + 8, n - 1, data, at, mem, total);
        } else {
            let k = read_len(data, at, len);
            if k == 0 {
                lemma_room_positive(list, off + 8, n - 1);
            } else {
                let next = (at + k) as u64;
                let m = splice(mem, ptr, read_slice(data, at, len));
                let sum = total.wrapping_add(k as u32);
                law_read_counts_what_moved(list, off + 8, n - 1, data, next, m, sum);
                lemma_room_positive(list, off + 8, n - 1);
                let to = laid(list, off + 8, n - 1, Ok(data), next, m, sum).1;
                assert(sum as int == (total + k) % 0x1_0000_0000);
                lemma_count_joins(total as int, k, to - next);
            }
        }
    }
}

proof fn lemma_count_joins(a: int, b: int, c: int)
    ensures
        ((a + b) % 0x1_0000_0000 + c) % 0x1_0000_0000 == (a + b + c) % 0x1_0000_0000,
{
    vstd::arithmetic::div_mod::lemma_add_mod_noop_right(c, a + b, 0x1_0000_0000);
}

proof fn lemma_room_positive(list: Seq<u8>, off: int, n: int)
    ensures
        room_of(list, off, n) >= 0,
    decreases n,
{
    if n > 0 {
        lemma_room_positive(list, off + 8, n - 1);
    }
}

/// After a read into several buffers that succeeds and that share no byte, byte `j` of
/// buffer `i` is the byte of the file that stands as far behind the old place as there
/// is room before it, for as many bytes as the place moved. An address `p` in no buffer
/// keeps its byte.
pub proof fn law_read_fills_in_order(
    list: Seq<u8>,
    off: int,
    n: int,
    data: Seq<u8>,
    at: u64,
    mem: Seq<u8>,
    total: u32,
    i: int,
    j: int,
    p: int,
)
    requires
        data.len() <= u64::MAX,
        laid(list, off, n, Ok(data), at, mem, total).2 is Some,
        buffers_apart(list, off, n),
        0 <= i < n,
        0 <= j < word_at(list, off + 8 * i + 4),
    ensures
        ({
            let (after, to, _) = laid(list, off, n, Ok(data), at, mem, total);
            let behind = room_of(list, off, i) + j;
            &&& behind < to - at ==> after[word_at(list, off + 8 * i) + j] == data[at + behind]
            &&& 0 <= p < mem.len() && in_no_buffer(list, off, n, p) ==> after[p] == mem[p]
        }),
    decreases n,
{
    let ptr = word_at(list, off) as int;
    let len = word_at(list, off + 4) as int;
    lemma_read_keeps_others(list, off, n, data, at, mem, total, p);
    assert(off + 8 + 8 * (i - 1) == off + 8 * i);
    if len == 0 {
        law_read_fills_in_order(list, off + 8, n - 1, data, at, mem, total, i - 1, j, p);
    } else {
        let k = read_len(data, at, len);
        lemma_room_positive(list, off, i);
        if k > 0 {
            let next = (at + k) as u64;
            let m = splice(mem, ptr, read_slice(data, at, len));
            let sum = total.wrapping_add(k as u32);
            law_read_counts_what_moved(list, off + 8, n - 1, data, next, m, sum);
            if i > 0 {
                law_read_fills_in_order(list, off + 8, n - 1, data, next, m, sum, i - 1, j, p);
                lemma_room_positive(list, off + 8, i - 1);
            } else {
                assert(in_no_buffer(list, off + 8, n - 1, ptr + j));
                if j < k {
                    lemma_read_keeps_others(list, off + 8, n - 1, data, next, m, sum, ptr + j);
                    assert(m[ptr + j] == read_slice(data, at, len)[j]);
                }
            }
        }
    }
}

/// A read leaves alone what lies in no buffer.
proof fn lemma_read_keeps_others(
    list: Seq<u8>,
    off: int,
    n: int,
    data: Seq<u8>,
    at: u64,
    mem: Seq<u8>,
    total: u32,
    p: int,
)
    ensures
        0 <= p < mem.len() && in_no_buffer(list, off, n, p) ==> laid(
            list,
            off,
            n,
            Ok(data),
            at,
            mem,
            total,
        ).0[p] == mem[p],
        laid(list, off, n, Ok(data), at, mem, total).0.len() == mem.len(),
    decreases n,
{
    if n > 0 {
        let ptr = word_at(list, off) as int;
        let len = word_at(list, off + 4) as int;
        if len == 0 {
            lemma_read_keeps_others(list, off + 8, n - 1, data, at, mem, total, p);
        } else {
            let k = read_len(data, at, len);
            if k > 0 && k <= i32::MAX && ptr + k <= mem.len() {
                lemma_read_keeps_others(
                    list,
                    off + 8,
                    n - 1,
                    data,
                    (at + k) as u64,
                    splice(mem, ptr, read_slice(data, at, len)),
                    total.wrapping_add(k as u32),
                    p,
                );
            }
        }
    }
}

/// What a walk over buffers ends with: the count goes to `ptr`, and a walk that
/// failed is `EBADF`.
pub open spec fn walk_ended(mem: Seq<u8>, total: Option<u32>, ptr: i32) -> (Seq<u8>, i32) {
    match total {
        None => (mem, EBADF),
        Some(n) => count_put(mem, ptr, n as nat),
    }
}

/// What `fd_read` does to the files and to memory.
pub open spec fn read_done(
    before: (FsView, Seq<u8>),
    after: (FsView, Seq<u8>),
    fd: i32,
    iovs_ptr: i32,
    iovs_len: i32,
    nread_ptr: i32,
    r: i32,
) -> bool {
    let n = iovs_len as u32;
    if fd < 3 {
        &&& after.0 == before.0
        &&& (after.1, r) == count_put(before.1, nread_ptr, 0)
    } else if !before.0.closable(fd) || !guest_range(before.1, iovs_ptr, 8 * n) {
        r == EBADF && after.0 == before.0 && after.1 == before.1
    } else {
        let list = before.1.subrange(addr(iovs_ptr), addr(iovs_ptr) + 8 * n);
        let walk = laid(
            list,
            0,
            n as int,
            before.0.fd_file(fd),
            before.0.fd(fd)->0.offset,
            before.1,
            0,
        );
        &&& after.0 == before.0.with_offset(fd, walk.1)
        &&& (after.1, r) == walk_ended(walk.0, walk.2, nread_ptr)
    }
}

/// After an `fd_read` that succeeds, the guest reads at `nread_ptr` the number of bytes
/// by which the descriptor moved. That is as many as are left in the file, or as the
/// buffers of the list take together, whichever is less. The files are as they were.
pub proof fn law_fd_read_tells_count(
    before: (FsView, Seq<u8>),
    after: (FsView, Seq<u8>),
    fd: i32,
    iovs_ptr: i32,
    iovs_len: i32,
    nread_ptr: i32,
    r: i32,
)
    requires
        read_done(before, after, fd, iovs_ptr, iovs_len, nread_ptr, r),
        r == 0,
        fd >= 3,
        0 <= iovs_len,
        before.0.fd_file(fd) is Ok,
        before.0.fd_file(fd)->Ok_0.len() <= u32::MAX,
    ensures
        ({
            let data = before.0.fd_file(fd)->Ok_0;
            let at = before.0.fd(fd)->0.offset;
            let start = iovs_ptr as u32 as int;
            let list = before.1.subrange(start, start + 8 * iovs_len);
            let left = if at <= data.len() {
                data.len() - at
            } else {
                0
            };
            let room = room_of(list, 0, iovs_len as int);
            let n = word_at(after.1, nread_ptr as u32 as int) as int;
            &&& start + 8 * iovs_len <= before.1.len()
            &&& nread_ptr as u32 + 4 <= after.1.len()
            &&& after.1.len() == before.1.len()
            &&& n == if left <= room {
                left
            } else {
                room
            }
            &&& after.0.fd(fd) is Some
            &&& after.0.fd(fd)->0.offset == at + n
            &&& after.0.nodes == before.0.nodes
        }),
{
    let data = before.0.fd_file(fd)->Ok_0;
    let at = before.0.fd(fd)->0.offset;
    let start = iovs_ptr as u32 as int;
    assert(iovs_len as u32 == iovs_len);
    let list = before.1.subrange(start, start + 8 * iovs_len);
    let walk = laid(list, 0, iovs_len as int, Ok(data), at, before.1, 0);
    law_read_counts_what_moved(list, 0, iovs_len as int, data, at, before.1, 0);
    lemma_room_positive(list, 0, iovs_len as int);
    let n = walk.2->0;
    assert(n == walk.1 - at);
    lemma_le_bytes_len(n as nat, 4);
    lemma_word_reads_back(walk.0, addr(nread_ptr), n as nat);
    assert(after.1 == splice(walk.0, addr(nread_ptr), le_bytes(n as nat, 4)));
    assert(after.0 == before.0.with_offset(fd, walk.1));
}

/// `fd_read`: read a file from where the descriptor stands into the buffers that
/// `iovs_len` descriptions at `iovs_ptr` name, and store the count. The standard
/// streams give nothing. A descriptor that is not open, a list outside memory
/// and a walk that fails are `EBADF`.
pub fn fd_read(
    fs: &mut InMemFs,
    mem: &mut [u8],
    fd: i32,
    iovs_ptr: i32,
    iovs_len: i32,
    nread_ptr: i32,
) -> (r: i32)
    requires
        old(fs).wf(),
    ensures
        final(fs).wf(),
        read_done(
            (old(fs)@, old(mem)@),
            (final(fs)@, final(mem)@),
            fd,
            iovs_ptr,
            iovs_len,
            nread_ptr,
            r,
        ),
{
    if fd < 3 {
        return put_count(mem, nread_ptr, 0);
    }
    let from: u64 = match fs.offset_of(fd) {
        None => {
            return EBADF;
        },
        Some(at) => at,
    };
    let n: usize = iovs_len as u32 as usize;
    let at: usize = addr_of(iovs_ptr);
    if at as u128 + 8 * (n as u128) > mem.len() as u128 {
        return EBADF;
    }
    let list = bytes_at(mem, at, 8 * n);
    let (to, total): (u64, Option<u32>) = lay_file(fs, mem, &list, n, fd, from);
    fs.set_offset(fd, to);
    match total {
        None => EBADF,
        Some(k) => put_count(mem, nread_ptr, k),
    }
}

/// What `fd_pread` does to memory.
pub open spec fn pread_done(
    fs: FsView,
    before: Seq<u8>,
    after: Seq<u8>,
    fd: i32,
    iovs_ptr: i32,
    iovs_len: i32,
    offset: i64,
    nread_ptr: i32,
    r: i32,
) -> bool {
    let n = iovs_len as u32;
    if fd < 3 {
        (after, r) == count_put(before, nread_ptr, 0)
    } else if !fs.closable(fd) || !guest_range(before, iovs_ptr, 8 * n) {
        r == EBADF && after == before
    } else {
        let list = before.subrange(addr(iovs_ptr), addr(iovs_ptr) + 8 * n);
        let walk = laid(
            list,
            0,
            n as int,
            fs.fd_file(fd),
            offset as u64,
            before,
            0,
        );
        (after, r) == walk_ended(walk.0, walk.2, nread_ptr)
    }
}

/// `fd_pread` from where a descriptor stands does to memory what `fd_read` does, and has
/// the same result.
pub proof fn law_pread_reads_as_read(
    fs: FsView,
    mem: Seq<u8>,
    read: (FsView, Seq<u8>),
    pread: Seq<u8>,
    fd: i32,
    iovs_ptr: i32,
    iovs_len: i32,
    offset: i64,
    nread_ptr: i32,
    r: i32,
    p: i32,
)
    requires
        read_done((fs, mem), read, fd, iovs_ptr, iovs_len, nread_ptr, r),
        pread_done(fs, mem, pread, fd, iovs_ptr, iovs_len, offset, nread_ptr, p),
        fd >= 3 ==> fs.fd(fd) is Some && fs.fd(fd)->0.offset == offset,
    ensures
        pread == read.1,
        p == r,
{
}

/// `fd_pread`: like `fd_read`, but from `offset`, and the descriptor does not
/// move.
pub fn fd_pread(
    fs: &InMemFs,
    mem: &mut [u8],
    fd: i32,
    iovs_ptr: i32,
    iovs_len: i32,
    offset: i64,
    nread_ptr: i32,
) -> (r: i32)
    requires
        fs.wf(),
    ensures
        pread_done(fs@, old(mem)@, final(mem)@, fd, iovs_ptr, iovs_len, offset, nread_ptr, r),
{
    if fd < 3 {
        return put_count(mem, nread_ptr, 0);
    }
    if !fs.is_fs_fd(fd) {
        return EBADF;
    }
    let n: usize = iovs_len as u32 as usize;
    let at: usize = addr_of(iovs_ptr);
    if at as u128 + 8 * (n as u128) > mem.len() as u128 {
        return EBADF;
    }
    let list = bytes_at(mem, at, 8 * n);
    let (_, total): (u64, Option<u32>) = lay_file(fs, mem, &list, n, fd, offset as u64);
    match total {
        None => EBADF,
        Some(k) => put_count(mem, nread_ptr, k),
    }
}

/// `fd_pwrite`: nothing is written.
pub fn fd_pwrite(mem: &mut [u8], nwritten_ptr: i32) -> (r: i32)
    ensures
        (final(mem)@, r) == count_put(old(mem)@, nwritten_ptr, 0),
{
    put_count(mem, nwritten_ptr, 0)
}

/// Storing a 64-bit value: memory afterwards and 0, or `refusal` if it has no
/// place.
pub open spec fn wide_put(mem: Seq<u8>, ptr: i32, v: nat, refusal: i32) -> (Seq<u8>, i32) {
    if guest_range(mem, ptr, 8) {
        (splice(mem, addr(ptr), le_bytes(v, 8)), 0i32)
    } else {
        (mem, refusal)
    }
}

fn put_wide(mem: &mut [u8], ptr: i32, v: u64, refusal: i32) -> (r: i32)
    ensures
        (final(mem)@, r) == wide_put(old(mem)@, ptr, v as nat, refusal),
{
    if write_u64(mem, ptr, v) {
        0
    } else {
        refusal
    }
}

/// What `fd_seek` does to the files and to memory.
pub open spec fn seek_done(
    before: (FsView, Seq<u8>),
    after: (FsView, Seq<u8>),
    fd: i32,
    offset: i64,
    whence: i32,
    newoffset_ptr: i32,
    r: i32,
) -> bool {
    if fd < 3 {
        &&& after.0 == before.0
        &&& (after.1, r) == wide_put(before.1, newoffset_ptr, 0, EBADF)
    } else {
        match before.0.fd(fd) {
            None => r == EBADF && after.0 == before.0 && after.1 == before.1,
            Some(e) => match seek_target(
                e.offset,
                before.0.fd_size(fd) as u64,
                offset,
                whence,
            ) {
                Some(t) if t >= 0 => {
                    &&& after.0 == before.0.with_offset(fd, t as u64)
                    &&& (after.1, r) == wide_put(
                        before.1,
                        newoffset_ptr,
                        t as nat,
                        EBADF,
                    )
                },
                _ => r == EINVAL && after.0 == before.0 && after.1 == before.1,
            },
        }
    }
}

/// A 64-bit value that the guest gave room for is read there, and no other byte of
/// memory changes.
pub proof fn law_wide_value_is_told(mem: Seq<u8>, ptr: i32, v: u64, refusal: i32)
    ensures
        ({
            let (after, r) = wide_put(mem, ptr, v as nat, refusal);
            let at = ptr as u32 as int;
            &&& after.len() == mem.len()
            &&& at + 8 <= mem.len() ==> r == 0 && le_value(after.subrange(at, at + 8)) == v
            &&& at + 8 > mem.len() ==> r == refusal && after == mem
            &&& forall|i: int|
                0 <= i < mem.len() && !(at <= i < at + 8) ==> #[trigger] after[i] == mem[i]
        }),
{
    reveal_with_fuel(le_limit, 9);
    lemma_le_bytes_len(v as nat, 8);
    law_le_round_trip(v as nat, 8);
    let at = ptr as u32 as int;
    if at + 8 <= mem.len() {
        law_splice_reads_back(mem, at, le_bytes(v as nat, 8));
    }
}

/// `fd_seek` on an open descriptor moves it as seeking does, and the guest reads the new
/// place at `newoffset_ptr`. A place that cannot be is `EINVAL`, and moves nothing.
pub proof fn law_fd_seek_tells_place(
    before: (FsView, Seq<u8>),
    after: (FsView, Seq<u8>),
    fd: i32,
    offset: i64,
    whence: i32,
    newoffset_ptr: i32,
    r: i32,
)
    requires
        seek_done(before, after, fd, offset, whence, newoffset_ptr, r),
        fd >= 3,
        before.0.fd(fd) is Some,
        newoffset_ptr as u32 + 8 <= before.1.len(),
    ensures
        ({
            let (t, to) = before.0.sought(fd, offset, whence);
            &&& after.0 == t
            &&& to >= 0 ==> {
                let at = newoffset_ptr as u32 as int;
                &&& r == 0
                &&& le_value(after.1.subrange(at, at + 8)) == to
                &&& after.0.fd(fd)->0.offset == to
            }
            &&& to < 0 ==> r == 28 && after.1 == before.1
        }),
{
    let (t, to) = before.0.sought(fd, offset, whence);
    if to >= 0 {
        law_wide_value_is_told(before.1, newoffset_ptr, to as u64, 8);
    }
}

/// `fd_seek`: move a descriptor and store where it stands. The standard streams
/// always stand at 0. An unknown `whence` and a target before the start are
/// `EINVAL`, a descriptor that is not open `EBADF`.
pub fn fd_seek(
    fs: &mut InMemFs,
    mem: &mut [u8],
    fd: i32,
    offset: i64,
    whence: i32,
    newoffset_ptr: i32,
) -> (r: i32)
    requires
        old(fs).wf(),
    ensures
        final(fs).wf(),
        seek_done(
            (old(fs)@, old(mem)@),
            (final(fs)@, final(mem)@),
            fd,
            offset,
            whence,
            newoffset_ptr,
            r,
        ),
{
    let to: i64 = if fd < 3 {
        0
    } else if fs.is_fs_fd(fd) {
        let to: i64 = fs.lseek(fd, offset, whence);
        if to < 0 {
            return EINVAL;
        }
        to
    } else {
        return EBADF;
    };
    put_wide(mem, newoffset_ptr, to as u64, EBADF)
}

/// What `fd_close` does: the files afterwards and the result.
pub open spec fn close_done(fs: FsView, fd: i32) -> (FsView, i32) {
    if fd < 3 {
        (fs, 0i32)
    } else if !fs.closable(fd) {
        (fs, EBADF)
    } else {
        (fs.bulk_closed(fd).0, 0i32)
    }
}

/// `fd_close` leaves the standard streams alone and closes any other descriptor that is
/// open, but for a host file that is no journal. What is not open is `EBADF`.
pub proof fn law_fd_close_closes(fs: FsView, fd: i32, other: i32)
    requires
        other != fd,
    ensures
        ({
            let (t, r) = close_done(fs, fd);
            &&& fd < 3 ==> r == 0 && t == fs
            &&& fd >= 3 && fs.fd(fd) is None ==> r == 8 && t == fs
            &&& fd >= 3 && fs.fd(fd) is Some ==> r == 0
            &&& fd >= 3 && fs.fd(fd) is Some && !fs.host_fds.contains(fd) ==> t.fd(fd) is None
            &&& t.fd(other) == fs.fd(other)
            &&& t.nodes == fs.nodes
        }),
{
}

/// `fd_close`: close a descriptor. The standard streams stay open. A host-backed
/// descriptor survives unless it is a journal, since Python closes all
/// descriptors in bulk.
pub fn fd_close(fs: &mut InMemFs, fd: i32) -> (r: i32)
    requires
        old(fs).wf(),
    ensures
        final(fs).wf(),
        (final(fs)@, r) == close_done(old(fs)@, fd),
{
    if fd < 3 {
        return 0;
    }
    if fs.wasi_close(fd) < 0 {
        EBADF
    } else {
        0
    }
}

/// The 24 bytes of an `fdstat`: a file type, no flags, all rights.
pub open spec fn fdstat(filetype: u8) -> Seq<u8> {
    seq![filetype] + zeros(7) + le_bytes(u64::MAX as nat, 8) + le_bytes(u64::MAX as nat, 8)
}

/// Storing bytes: memory afterwards and 0, or `EBADF` if they have no place.
pub open spec fn bytes_put(mem: Seq<u8>, ptr: i32, bytes: Seq<u8>) -> (Seq<u8>, i32) {
    if guest_range(mem, ptr, bytes.len() as int) {
        (splice(mem, addr(ptr), bytes), 0i32)
    } else {
        (mem, EBADF)
    }
}

fn put_bytes(mem: &mut [u8], ptr: i32, bytes: &[u8]) -> (r: i32)
    ensures
        (final(mem)@, r) == bytes_put(old(mem)@, ptr, bytes@),
{
    if write_bytes(mem, ptr, bytes) {
        0
    } else {
        EBADF
    }
}

/// Storing the `fdstat` of `fd`: memory afterwards and the result.
pub open spec fn fdstat_told(fs: FsView, mem: Seq<u8>, fd: i32, ptr: i32) -> (Seq<u8>, i32) {
    if fd < 3 {
        bytes_put(mem, ptr, fdstat(2))
    } else if fs.closable(fd) {
        bytes_put(mem, ptr, fdstat(4))
    } else {
        (mem, EBADF)
    }
}

/// The standard streams are told as character devices (2), and an open descriptor as a
/// regular file (4), with all rights; what is not open is `EBADF`.
pub proof fn law_fdstat_is_told(fs: FsView, mem: Seq<u8>, fd: i32, ptr: i32)
    requires
        ptr as u32 + 24 <= mem.len(),
    ensures
        ({
            let (m, r) = fdstat_told(fs, mem, fd, ptr);
            let at = ptr as u32 as int;
            &&& m.len() == mem.len()
            &&& fd < 3 ==> r == 0 && m[at] == 2
            &&& fd >= 3 && fs.fd(fd) is Some ==> r == 0 && m[at] == 4
            &&& fd >= 3 && fs.fd(fd) is None ==> r == 8 && m == mem
            &&& r == 0 ==> le_value(m.subrange(at + 8, at + 16)) == 0xffff_ffff_ffff_ffff
        }),
{
    let kind = if fd < 3 {
        2u8
    } else {
        4u8
    };
    let at = ptr as u32 as int;
    law_fdstat_fields(kind);
    let m = fdstat_told(fs, mem, fd, ptr).0;
    if fd < 3 || fs.fd(fd) is Some {
        assert(m.subrange(at + 8, at + 16) =~= fdstat(kind).subrange(8, 16));
    }
}

/// `fd_fdstat_get`: an open descriptor is a regular file (type 4), the standard
/// streams are character devices (type 2).
pub fn fd_fdstat_get(fs: &InMemFs, mem: &mut [u8], fd: i32, stat_ptr: i32) -> (r: i32)
    requires
        fs.wf(),
    ensures
        (final(mem)@, r) == fdstat_told(fs@, old(mem)@, fd, stat_ptr),
{
    let filetype: u8 = if fd < 3 {
        2
    } else if fs.is_fs_fd(fd) {
        4
    } else {
        return EBADF;
    };
    let mut rec: Vec<u8> = vec![filetype];
    let mut pad = zero_bytes(7);
    rec.append(&mut pad);
    let mut base = u64_bytes(u64::MAX);
    rec.append(&mut base);
    let mut inheriting = u64_bytes(u64::MAX);
    rec.append(&mut inheriting);
    assert(rec@ =~= fdstat(filetype));
    put_bytes(mem, stat_ptr, &rec)
}

/// Whether `fd` is the preopened root directory.
pub open spec fn is_root_preopen(fs: FsView, fd: i32) -> bool {
    fd == 3 && fs.fd(3) is Some && fs.fd(3)->0.path == seq!['/']
}

/// Handing the description of the preopened root to the guest: memory afterwards and the
/// result.
pub open spec fn prestat_told(fs: FsView, mem: Seq<u8>, fd: i32, ptr: i32) -> (Seq<u8>, i32) {
    if is_root_preopen(fs, fd) {
        bytes_put(mem, ptr, seq![0u8, 0, 0, 0, 1, 0, 0, 0])
    } else {
        (mem, EBADF)
    }
}

/// Handing the name of the preopened root to the guest: memory afterwards and the result.
pub open spec fn prestat_name_told(
    fs: FsView,
    mem: Seq<u8>,
    fd: i32,
    ptr: i32,
    len: i32,
) -> (Seq<u8>, i32) {
    if is_root_preopen(fs, fd) {
        bytes_put(
            mem,
            ptr,
            if len == 0 {
                Seq::<u8>::empty()
            } else {
                seq![47u8]
            },
        )
    } else {
        (mem, EBADF)
    }
}

/// `fd_prestat_get`: descriptor 3 on the root is a preopened directory (tag 0)
/// with a name of one byte; any other descriptor is `EBADF`.
pub fn fd_prestat_get(fs: &InMemFs, mem: &mut [u8], fd: i32, buf_ptr: i32) -> (r: i32)
    requires
        fs.wf(),
    ensures
        (final(mem)@, r) == prestat_told(fs@, old(mem)@, fd, buf_ptr),
{
    match fs.preopen_name(fd) {
        None => EBADF,
        Some(_) => {
            let rec = vec![0u8, 0, 0, 0, 1, 0, 0, 0];
            assert(rec@ =~= seq![0u8, 0, 0, 0, 1, 0, 0, 0]);
            put_bytes(mem, buf_ptr, &rec)
        },
    }
}

/// `fd_prestat_dir_name`: the name of the preopened root, `/`, as far as
/// `path_len` allows.
pub fn fd_prestat_dir_name(
    fs: &InMemFs,
    mem: &mut [u8],
    fd: i32,
    path_ptr: i32,
    path_len: i32,
) -> (r: i32)
    requires
        fs.wf(),
    ensures
        (final(mem)@, r) == prestat_name_told(fs@, old(mem)@, fd, path_ptr, path_len),
{
    match fs.preopen_name(fd) {
        None => EBADF,
        Some(_) => {
            let mut name: Vec<u8> = Vec::new();
            if path_len != 0 {
                name.push(47);
            }
            assert(name@ =~= if path_len == 0 {
                Seq::<u8>::empty()
            } else {
                seq![47u8]
            });
            put_bytes(mem, path_ptr, &name)
        },
    }
}

/// The path text of `len` bytes at `ptr`; `None` if they lie outside memory or
/// are not UTF-8.
pub open spec fn path_text(mem: Seq<u8>, ptr: i32, len: i32) -> Option<Seq<char>> {
    let n = len as u32;
    if guest_range(mem, ptr, n as int) && valid_utf8(
        mem.subrange(addr(ptr), addr(ptr) + n),
    ) {
        Some(decode_utf8(mem.subrange(addr(ptr), addr(ptr) + n)))
    } else {
        None
    }
}

fn read_path(mem: &[u8], ptr: i32, len: i32) -> (r: Option<String>)
    ensures
        match path_text(mem@, ptr, len) {
            Some(t) => r is Some && r->0@ == t,
            None => r is None,
        },
{
    match read_bytes(mem, ptr, len as u32 as usize) {
        None => None,
        Some(bytes) => string_from_utf8(bytes),
    }
}

/// The open flags that WASI `oflags` and the write right (bit 6) stand for.
pub open spec fn open_flags(oflags: i32, rights: i64) -> i32 {
    let w = if rights & 64 != 0 {
        1i32
    } else {
        0i32
    };
    let c = if oflags & 1 != 0 {
        64i32
    } else {
        0i32
    };
    let t = if oflags & 8 != 0 {
        512i32
    } else {
        0i32
    };
    w | c | t
}

/// A file is opened for writing exactly if the guest has the write right, is
/// created if bit 0 of `oflags` is set, and truncated if bit 3 is.
pub proof fn law_open_flags(oflags: i32, rights: i64)
    ensures
        wants_write(open_flags(oflags, rights)) <==> rights & 64 != 0,
        wants_create(open_flags(oflags, rights)) <==> oflags & 1 != 0,
        wants_truncate(open_flags(oflags, rights)) <==> oflags & 8 != 0,
{
    let f = open_flags(oflags, rights);
    assert(({
        let w = if rights & 64 != 0 {
            1i32
        } else {
            0i32
        };
        let c = if oflags & 1 != 0 {
            64i32
        } else {
            0i32
        };
        let t = if oflags & 8 != 0 {
            512i32
        } else {
            0i32
        };
        let f = w | c | t;
        &&& (f & 1 != 0 <==> rights & 64 != 0)
        &&& f & 2 == 0
        &&& (f & 64 != 0 <==> oflags & 1 != 0)
        &&& (f & 512 != 0 <==> oflags & 8 != 0)
    })) by (bit_vector);
}

/// The directory that a path is relative to: the preopened root or an open
/// descriptor.
pub open spec fn base_dir(fs: FsView, dirfd: i32) -> Option<Seq<char>> {
    match fs.fd(dirfd) {
        Some(e) => Some(e.path),
        None => None,
    }
}

/// Why `oflags` do not let `abs` be opened. With bit 1 set it must be a directory;
/// with bits 0 and 2 set it must not be there yet.
pub open spec fn oflags_refusal(fs: FsView, abs: Seq<char>, oflags: i32) -> Option<i32> {
    if !fs.nodes.contains_key(abs) {
        if oflags & 2 != 0 {
            Some(ENOENT)
        } else {
            None
        }
    } else if (oflags & 2 != 0 && !(fs.nodes[abs] is Dir)) || (oflags & 1 != 0 && oflags & 4 != 0) {
        Some(EBADF)
    } else {
        None
    }
}

/// Opening `abs` for `path_open`: the filesystem and memory afterwards and the
/// result. A descriptor that cannot be handed over is closed again.
pub open spec fn path_opened(
    fs: FsView,
    mem: Seq<u8>,
    abs: Seq<char>,
    flags: i32,
    ptr: i32,
) -> (FsView, Seq<u8>, i32) {
    let (after, fd) = fs.opened(abs, flags);
    if fd < 0 {
        (
            after,
            mem,
            if fd == crate::emscripten_fs::ENOENT {
                ENOENT
            } else {
                EBADF
            },
        )
    } else if guest_range(mem, ptr, 4) {
        (after, splice(mem, addr(ptr), le_bytes(fd as nat, 4)), 0i32)
    } else if after.closable(fd) {
        (after.without_fd(fd), mem, EBADF)
    } else {
        (after, mem, EBADF)
    }
}

/// What `path_open` of the path that was read does to the files and to memory.
pub open spec fn open_done(
    before: (FsView, Seq<u8>),
    after: (FsView, Seq<u8>),
    dirfd: i32,
    path: Option<Seq<char>>,
    oflags: i32,
    rights: i64,
    opened_fd_ptr: i32,
    r: i32,
) -> bool {
    match (path, base_dir(before.0, dirfd)) {
        (Some(path), Some(base)) => match oflags_refusal(
            before.0,
            resolved(base, path),
            oflags,
        ) {
            Some(e) => r == e && after.0 == before.0 && after.1 == before.1,
            None => (after.0, after.1, r) == path_opened(
                before.0,
                before.1,
                resolved(base, path),
                open_flags(oflags, rights),
                opened_fd_ptr,
            ),
        },
        _ => r == EBADF && after.0 == before.0 && after.1 == before.1,
    }
}

/// A `path_open` that succeeds opened what the path means from the directory behind
/// `dirfd`, and stored a descriptor for it. It created the file only with bit 0 of the
/// open flags, and found it missing only then.
pub proof fn law_path_open_opens_path(
    before: (FsView, Seq<u8>),
    after: (FsView, Seq<u8>),
    dirfd: i32,
    path: Option<Seq<char>>,
    oflags: i32,
    rights: i64,
    opened_fd_ptr: i32,
    r: i32,
)
    requires
        open_done(before, after, dirfd, path, oflags, rights, opened_fd_ptr, r),
        3 <= before.0.fds.len() <= i32::MAX,
        r == 0,
    ensures
        path is Some,
        before.0.fd(dirfd) is Some,
        ({
            let abs = resolved(before.0.fd(dirfd)->0.path, path->0);
            let fd = word_at(after.1, opened_fd_ptr as u32 as int) as i32;
            &&& fd >= 3
            &&& before.0.fd(fd) is None
            &&& after.0.fd(fd) is Some
            &&& after.0.fd(fd)->0.path == abs
            &&& after.0.fd(fd)->0.offset == 0
            &&& after.0.nodes.contains_key(abs)
            &&& oflags & 1 == 0 ==> before.0.nodes.contains_key(abs)
            &&& oflags & 2 != 0 ==> before.0.nodes.contains_key(abs) && before.0.nodes[abs] is Dir
            &&& oflags & 1 != 0 && oflags & 4 != 0 ==> !before.0.nodes.contains_key(abs)
        }),
{
    let abs = resolved(before.0.fd(dirfd)->0.path, path->0);
    let base = before.0.fd(dirfd)->0.path;
    let flags = open_flags(oflags, rights);
    if path->0.len() > 0 && path->0[0] == '/' {
        law_canonical_is_canonical(path->0);
    } else {
        law_canonical_is_canonical(base.push('/') + path->0);
    }
    law_path_open_tells_descriptor(before.0, before.1, abs, flags, opened_fd_ptr);
    law_oflags_refuse(before.0, abs, oflags);
    law_open_flags(oflags, rights);
    law_open_effects(before.0, abs, flags);
    law_open_is_fresh(before.0, abs, flags, 0);
    law_canonical_fixes_canonical(abs);
}

/// `path_open`: open the path of `path_len` bytes at `path_ptr`, relative to
/// `dirfd`, and store the descriptor. A path that cannot be read, a directory
/// that is not open and a directory that is to be written are `EBADF`; a file
/// that is not there and not to be created is `ENOENT`. Bit 1 of `oflags` asks for
/// a directory, and bit 2 for a file that is created by this call.
pub fn path_open(
    fs: &mut InMemFs,
    mem: &mut [u8],
    dirfd: i32,
    path_ptr: i32,
    path_len: i32,
    oflags: i32,
    rights: i64,
    opened_fd_ptr: i32,
) -> (r: i32)
    requires
        old(fs).wf(),
    ensures
        final(fs).wf(),
        open_done(
            (old(fs)@, old(mem)@),
            (final(fs)@, final(mem)@),
            dirfd,
            path_text(old(mem)@, path_ptr, path_len),
            oflags,
            rights,
            opened_fd_ptr,
            r,
        ),
{
    let path = match read_path(mem, path_ptr, path_len) {
        None => {
            return EBADF;
        },
        Some(p) => p,
    };
    let abs = match fs.fd_path(dirfd) {
        None => {
            return EBADF;
        },
        Some(base) => fs.resolve(base, path.as_str()),
    };
    match fs.get(abs.as_str()) {
        None => if oflags & 2 != 0 {
            return ENOENT;
        },
        Some(node) => {
            let is_dir = match node {
                FsNode::Dir => true,
                FsNode::File(_) => false,
            };
            if (oflags & 2 != 0 && !is_dir) || (oflags & 1 != 0 && oflags & 4 != 0) {
                return EBADF;
            }
        },
    }
    let w: i32 = if rights & 64 != 0 {
        1
    } else {
        0
    };
    let c: i32 = if oflags & 1 != 0 {
        64
    } else {
        0
    };
    let t: i32 = if oflags & 8 != 0 {
        512
    } else {
        0
    };
    let fd: i32 = fs.open(abs, w | c | t);
    if fd < 0 {
        return if fd == crate::emscripten_fs::ENOENT {
            ENOENT
        } else {
            EBADF
        };
    }
    if !write_u32(mem, opened_fd_ptr, fd as u32) {
        let _ = fs.close(fd);
        return EBADF;
    }
    0
}

/// The 64 bytes of a `filestat`: device 1, one link, no times.
pub open spec fn filestat(ino: nat, filetype: u8, size: nat) -> Seq<u8> {
    le_bytes(1, 8) + le_bytes(ino, 8) + seq![filetype] + zeros(7) + le_bytes(1, 8) + le_bytes(
        size,
        8,
    ) + zeros(24)
}

/// Looking up `abs` for `path_filestat_get`: the filesystem and memory afterwards
/// and the result.
pub open spec fn filestat_found(fs: FsView, mem: Seq<u8>, abs: Seq<char>, ptr: i32) -> (
    FsView,
    Seq<u8>,
    i32,
) {
    if fs.nodes.contains_key(abs) {
        let node = fs.nodes[abs];
        let rec = filestat(
            fs.next_ino as nat,
            if node is Dir {
                3u8
            } else {
                4u8
            },
            node_size(node),
        );
        (fs.with_next_ino(), bytes_put(mem, ptr, rec).0, bytes_put(mem, ptr, rec).1)
    } else {
        (fs, mem, ENOENT)
    }
}

/// `path_filestat_get`: the `filestat` of the path of `path_len` bytes at
/// `path_ptr` goes to `filestat_ptr`. A relative path needs an open directory.
pub fn path_filestat_get(
    fs: &mut InMemFs,
    mem: &mut [u8],
    dirfd: i32,
    path_ptr: i32,
    path_len: i32,
    filestat_ptr: i32,
) -> (r: i32)
    requires
        old(fs).wf(),
    ensures
        final(fs).wf(),
        match path_text(old(mem)@, path_ptr, path_len) {
            None => r == EBADF && final(fs)@ == old(fs)@ && final(mem)@ == old(mem)@,
            Some(path) => {
                let base = if path.len() > 0 && path[0] == '/' {
                    Some(seq!['/'])
                } else {
                    base_dir(old(fs)@, dirfd)
                };
                match base {
                    None => r == EBADF && final(fs)@ == old(fs)@ && final(mem)@ == old(mem)@,
                    Some(dir) => (final(fs)@, final(mem)@, r) == filestat_found(
                        old(fs)@,
                        old(mem)@,
                        resolved(dir, path),
                        filestat_ptr,
                    ),
                }
            },
        },
{
    let path = match read_path(mem, path_ptr, path_len) {
        None => {
            return EBADF;
        },
        Some(p) => p,
    };
    proof {
        reveal_strlit("/");
        assert("/"@ =~= seq!['/']);
    }
    let cs = crate::text::chars_of(path.as_str());
    let abs = if cs.len() > 0 && cs[0] == '/' {
        fs.resolve("/", path.as_str())
    } else {
        match fs.fd_path(dirfd) {
            None => {
                return EBADF;
            },
            Some(base) => fs.resolve(base, path.as_str()),
        }
    };
    let info = match fs.node_info(abs.as_str()) {
        None => {
            return ENOENT;
        },
        Some(i) => i,
    };
    let mut rec = u64_bytes(1);
    let mut ino = u64_bytes(info.ino);
    rec.append(&mut ino);
    rec.push(info.filetype);
    let mut pad = zero_bytes(7);
    rec.append(&mut pad);
    let mut nlink = u64_bytes(1);
    rec.append(&mut nlink);
    let mut size = u64_bytes(info.size);
    rec.append(&mut size);
    let mut times = zero_bytes(24);
    rec.append(&mut times);
    assert(rec@ =~= filestat(info.ino as nat, info.filetype, info.size as nat));
    put_bytes(mem, filestat_ptr, &rec)
}

/// Handing the time of any clock to the guest: memory afterwards and the result.
pub open spec fn time_told(mem: Seq<u8>, ptr: i32) -> (Seq<u8>, i32) {
    wide_put(mem, ptr, VIRTUAL_EPOCH_NS as nat, 1)
}

/// Handing the resolution of any clock to the guest: memory afterwards and the result.
pub open spec fn resolution_told(mem: Seq<u8>, ptr: i32) -> (Seq<u8>, i32) {
    wide_put(mem, ptr, 1, 1)
}

/// `clock_time_get`: every clock shows the same instant.
pub fn clock_time_get(mem: &mut [u8], time_ptr: i32) -> (r: i32)
    ensures
        (final(mem)@, r) == time_told(old(mem)@, time_ptr),
{
    put_wide(mem, time_ptr, VIRTUAL_EPOCH_NS, 1)
}

/// `clock_res_get`: a resolution of one nanosecond.
pub fn clock_res_get(mem: &mut [u8], resolution_ptr: i32) -> (r: i32)
    ensures
        (final(mem)@, r) == resolution_told(old(mem)@, resolution_ptr),
{
    put_wide(mem, resolution_ptr, 1, 1)
}

/// What the trap that ends a guest says.
pub fn exit_message(code: i32) -> (r: String)
    ensures
        r@ == "proc_exit("@ + decimal_signed(code as int) + ")"@,
{
    let mut s = "proc_exit(".to_owned();
    push_signed(&mut s, code as i64);
    s.append(")");
    s
}

/// `poll_oneoff`: no event is ever ready.
pub fn poll_oneoff(mem: &mut [u8], nevents_ptr: i32) -> (r: i32)
    ensures
        if guest_range(old(mem)@, nevents_ptr, 4) {
            r == 0 && final(mem)@ == splice(old(mem)@, addr(nevents_ptr), le_bytes(0, 4))
        } else {
            r == 1 && final(mem)@ == old(mem)@
        },
{
    if write_u32(mem, nevents_ptr, 0) {
        0
    } else {
        1
    }
}

/// The step between generator states, which is also the seed.
pub const RANDOM_STEP: u64 = 0x9e37_79b9_7f4a_7c15;

/// The generator state after `n` steps from the seed.
pub open spec fn random_state(n: nat) -> u64
    decreases n,
{
    if n == 0 {
        RANDOM_STEP
    } else {
        random_state((n - 1) as nat).wrapping_add(RANDOM_STEP)
    }
}

/// The value that a generator state gives (the SplitMix64 finalizer).
pub open spec fn random_mix(state: u64) -> u64 {
    let a = (state ^ (state >> 30)).wrapping_mul(0xbf58_476d_1ce4_e5b9);
    let b = (a ^ (a >> 27)).wrapping_mul(0x94d0_49bb_1331_11eb);
    b ^ (b >> 31)
}

/// The first `n` words that the generator gives, one behind the other.
pub open spec fn random_words(n: nat) -> Seq<u8>
    decreases n,
{
    if n == 0 {
        Seq::empty()
    } else {
        random_words((n - 1) as nat) + le_bytes(random_mix(random_state(n)) as nat, 8)
    }
}

/// The bytes that a request for `len` of them gets: always the same.
pub open spec fn random_bytes(len: nat) -> Seq<u8> {
    random_words((len + 7) / 8).take(len as int)
}

proof fn lemma_random_words_len(n: nat)
    ensures
        random_words(n).len() == 8 * n,
    decreases n,
{
    if n > 0 {
        lemma_random_words_len((n - 1) as nat);
        lemma_le_bytes_len(random_mix(random_state(n)) as nat, 8);
    }
}

proof fn lemma_random_words_prefix(m: nat, n: nat)
    requires
        m <= n,
    ensures
        random_words(n).take(8 * m as int) == random_words(m),
    decreases n,
{
    lemma_random_words_len(m);
    lemma_random_words_len(n);
    if m < n {
        lemma_random_words_prefix(m, (n - 1) as nat);
        lemma_random_words_len((n - 1) as nat);
        assert(random_words(n).take(8 * m as int) =~= random_words((n - 1) as nat).take(8 * m as int));
    } else {
        assert(random_words(n).take(8 * m as int) =~= random_words(m));
    }
}

/// A request gets exactly the bytes that it asked for, and a longer one begins
/// with those of a shorter one.
pub proof fn law_random_bytes(a: nat, b: nat)
    requires
        a <= b,
    ensures
        random_bytes(a).len() == a,
        random_bytes(b).take(a as int) == random_bytes(a),
{
    let m = (a + 7) / 8;
    let n = (b + 7) / 8;
    lemma_random_words_len(m);
    lemma_random_words_len(n);
    lemma_random_words_prefix(m, n);
    assert(random_words(n).take(8 * m as int).take(a as int) =~= random_words(n).take(a as int));
    assert(random_bytes(b).take(a as int) =~= random_words(n).take(a as int));
}

/// Storing random bytes: memory afterwards and the result.
pub open spec fn random_told(mem: Seq<u8>, buf_ptr: i32, buf_len: i32) -> (Seq<u8>, i32) {
    let len = buf_len as u32;
    if len == 0 {
        (mem, 0i32)
    } else if guest_range(mem, buf_ptr, len as int) {
        (splice(mem, addr(buf_ptr), random_bytes(len as nat)), 0i32)
    } else {
        (mem, 1i32)
    }
}

/// The guest reads as many random bytes as it asked for, the same ones in every run and
/// wherever they go; no other byte of memory changes.
pub proof fn law_random_fills_buffer(mem: Seq<u8>, buf_ptr: i32, buf_len: i32, i: int)
    requires
        0 <= buf_len,
        buf_ptr as u32 + buf_len <= mem.len(),
        0 <= i < mem.len(),
    ensures
        ({
            let (m, r) = random_told(mem, buf_ptr, buf_len);
            let at = buf_ptr as u32 as int;
            &&& r == 0
            &&& m.len() == mem.len()
            &&& at <= i < at + buf_len ==> m[i] == random_bytes((i - at + 1) as nat)[i - at]
            &&& !(at <= i < at + buf_len) ==> m[i] == mem[i]
        }),
{
    assert(buf_len as u32 == buf_len);
    let at = buf_ptr as u32 as int;
    law_random_bytes(buf_len as nat, buf_len as nat);
    if at <= i < at + buf_len {
        law_random_bytes((i - at + 1) as nat, buf_len as nat);
        assert(random_bytes(buf_len as nat).take(i - at + 1)[i - at] == random_bytes(
            buf_len as nat,
        )[i - at]);
    }
}

/// `random_get`: deterministic bytes go to `buf_ptr`, so that a run can be
/// repeated exactly. Returns 1 if they have no place.
pub fn random_get(mem: &mut [u8], buf_ptr: i32, buf_len: i32) -> (r: i32)
    ensures
        (final(mem)@, r) == random_told(old(mem)@, buf_ptr, buf_len),
{
    let len: usize = buf_len as u32 as usize;
    if len == 0 {
        return 0;
    }
    let start: usize = addr_of(buf_ptr);
    if !in_range(mem.len(), start, len) {
        return 1;
    }
    let words: usize = if len % 8 == 0 {
        len / 8
    } else {
        len / 8 + 1
    };
    let mut buf: Vec<u8> = Vec::new();
    let mut state: u64 = RANDOM_STEP;
    let mut i: usize = 0;
    while i < words
        invariant
            i <= words,
            state == random_state(i as nat),
            buf@ == random_words(i as nat),
        decreases words - i,
    {
        state = state.wrapping_add(RANDOM_STEP);
        let a: u64 = (state ^ (state >> 30)).wrapping_mul(0xbf58_476d_1ce4_e5b9);
        let b: u64 = (a ^ (a >> 27)).wrapping_mul(0x94d0_49bb_1331_11eb);
        let mut word = u64_bytes(b ^ (b >> 31));
        buf.append(&mut word);
        i = i + 1;
    }
    proof {
        lemma_random_words_len(words as nat);
        assert(words == (len + 7) / 8);
        assert(buf@.subrange(0, len as int) =~= random_bytes(len as nat));
    }
    write_at(mem, start, &buf[0..len]);
    0
}

/// Two words that the guest gave room for, apart from each other, are read there.
pub proof fn law_two_words_are_told(mem: Seq<u8>, a: i32, va: u32, b: i32, vb: u32)
    requires
        a as u32 + 4 <= mem.len(),
        b as u32 + 4 <= mem.len(),
        a as u32 + 4 <= b as u32 || b as u32 + 4 <= a as u32,
    ensures
        ({
            let (after, r) = two_words(mem, a, va as nat, b, vb as nat);
            &&& r == 0
            &&& after.len() == mem.len()
            &&& word_at(after, a as u32 as int) == va
            &&& word_at(after, b as u32 as int) == vb
        }),
{
    lemma_le_bytes_len(va as nat, 4);
    lemma_le_bytes_len(vb as nat, 4);
    let m = splice(mem, addr(a), le_bytes(va as nat, 4));
    let done = two_words(mem, a, va as nat, b, vb as nat).0;
    lemma_word_reads_back(mem, addr(a), va as nat);
    lemma_word_reads_back(m, addr(b), vb as nat);
    assert(done.subrange(addr(a), addr(a) + 4) =~= m.subrange(addr(a), addr(a) + 4));
}

/// The fields of an `fdstat` stand at their offsets: the type first, and all 64 bits of
/// the rights and of the rights to inherit set.
pub proof fn law_fdstat_fields(filetype: u8)
    ensures
        ({
            let s = fdstat(filetype);
            &&& s.len() == 24
            &&& s[0] == filetype
            &&& forall|i: int| 1 <= i < 8 ==> #[trigger] s[i] == 0
            &&& le_value(s.subrange(8, 16)) == 0xffff_ffff_ffff_ffff
            &&& le_value(s.subrange(16, 24)) == 0xffff_ffff_ffff_ffff
        }),
{
    reveal_with_fuel(le_limit, 9);
    let all = le_bytes(u64::MAX as nat, 8);
    lemma_le_bytes_len(u64::MAX as nat, 8);
    law_le_round_trip(u64::MAX as nat, 8);
    assert(fdstat(filetype).subrange(8, 16) =~= all);
    assert(fdstat(filetype).subrange(16, 24) =~= all);
}

/// The fields of a `filestat` stand at their offsets: the device, the inode number, the
/// type, the links and the size, and zeros for the times.
pub proof fn law_filestat_fields(ino: u64, filetype: u8, size: u64)
    ensures
        ({
            let s = filestat(ino as nat, filetype, size as nat);
            &&& s.len() == 64
            &&& le_value(s.subrange(0, 8)) == 1
            &&& le_value(s.subrange(8, 16)) == ino
            &&& s[16] == filetype
            &&& forall|i: int| 17 <= i < 24 ==> #[trigger] s[i] == 0
            &&& le_value(s.subrange(24, 32)) == 1
            &&& le_value(s.subrange(32, 40)) == size
            &&& forall|i: int| 40 <= i < 64 ==> #[trigger] s[i] == 0
        }),
{
    reveal_with_fuel(le_limit, 9);
    lemma_le_bytes_len(1, 8);
    lemma_le_bytes_len(ino as nat, 8);
    lemma_le_bytes_len(size as nat, 8);
    law_le_round_trip(1, 8);
    law_le_round_trip(ino as nat, 8);
    law_le_round_trip(size as nat, 8);
    let s = filestat(ino as nat, filetype, size as nat);
    assert(s.subrange(0, 8) =~= le_bytes(1, 8));
    assert(s.subrange(8, 16) =~= le_bytes(ino as nat, 8));
    assert(s.subrange(24, 32) =~= le_bytes(1, 8));
    assert(s.subrange(32, 40) =~= le_bytes(size as nat, 8));
}

/// A lookup of a node that is there stores its `filestat` where the guest gave room for
/// it: type 3 for a directory and 4 for a file, the size of the file, and a fresh inode
/// number. A missing node is `ENOENT`.
pub proof fn law_filestat_tells_node(fs: FsView, mem: Seq<u8>, abs: Seq<char>, ptr: i32)
    requires
        fs.nodes.contains_key(abs) ==> node_size(fs.nodes[abs]) <= u64::MAX,
        ptr as u32 + 64 <= mem.len(),
    ensures
        ({
            let (after, m, r) = filestat_found(fs, mem, abs, ptr);
            let at = ptr as u32 as int;
            &&& after.nodes == fs.nodes && after.fds == fs.fds
            &&& m.len() == mem.len()
            &&& !fs.nodes.contains_key(abs) ==> r == 44 && m == mem && after == fs
            &&& fs.nodes.contains_key(abs) ==> {
                &&& r == 0
                &&& le_value(m.subrange(at + 8, at + 16)) == fs.next_ino
                &&& m[at + 16] == if fs.nodes[abs] is Dir {
                    3u8
                } else {
                    4u8
                }
                &&& le_value(m.subrange(at + 32, at + 40)) == match fs.nodes[abs] {
                    NodeView::File(data) => data.len(),
                    NodeView::Dir => 0nat,
                }
                &&& after.next_ino != fs.next_ino || fs.next_ino == 0
            }
        }),
{
    if fs.nodes.contains_key(abs) {
        let at = ptr as u32 as int;
        let node = fs.nodes[abs];
        let kind = if node is Dir {
            3u8
        } else {
            4u8
        };
        let rec = filestat(fs.next_ino as nat, kind, node_size(node));
        law_filestat_fields(fs.next_ino, kind, node_size(node) as u64);
        let m = filestat_found(fs, mem, abs, ptr).1;
        assert(m == splice(mem, at, rec));
        assert(m.subrange(at + 8, at + 16) =~= rec.subrange(8, 16));
        assert(m.subrange(at + 32, at + 40) =~= rec.subrange(32, 40));
        assert(m[at + 16] == rec[16]);
    }
}

/// A `path_open` that succeeds stores a descriptor that was not open and now stands for
/// the path, at its start. One that fails leaves memory alone; a missing file that is
/// not to be created is `ENOENT`.
pub proof fn law_path_open_tells_descriptor(
    fs: FsView,
    mem: Seq<u8>,
    abs: Seq<char>,
    flags: i32,
    ptr: i32,
)
    requires
        3 <= fs.fds.len() <= i32::MAX,
        is_canonical(abs),
    ensures
        ({
            let (after, m, r) = path_opened(fs, mem, abs, flags, ptr);
            let at = ptr as u32 as int;
            &&& r == 0 ==> {
                let fd = word_at(m, at) as i32;
                &&& at + 4 <= mem.len()
                &&& word_at(m, at) <= i32::MAX
                &&& fd >= 3
                &&& fs.fd(fd) is None
                &&& after.fd(fd) is Some
                &&& after.fd(fd)->0.path == abs
                &&& after.fd(fd)->0.offset == 0
            }
            &&& r != 0 ==> m == mem
            &&& !fs.nodes.contains_key(abs) && flags & 64 == 0 ==> r == 44 && after == fs
            &&& fs.nodes.contains_key(abs) && fs.nodes[abs] is File && at + 4 <= mem.len() ==> r == 0
            &&& m.len() == mem.len()
        }),
{
    law_open_effects(fs, abs, flags);
    law_open_is_fresh(fs, abs, flags, 0);
    law_canonical_fixes_canonical(abs);
    let fd = fs.opened(abs, flags).1;
    if fd >= 0 && guest_range(mem, ptr, 4) {
        lemma_le_bytes_len(fd as nat, 4);
        lemma_word_reads_back(mem, addr(ptr), fd as nat);
    }
}

/// Bit 1 of the open flags asks for a directory: nothing else is opened with it. Bits 0
/// and 2 together ask for a file that is new: nothing that is there is opened with them.
/// Without these bits nothing is refused.
pub proof fn law_oflags_refuse(fs: FsView, abs: Seq<char>, oflags: i32)
    ensures
        oflags & 2 != 0 && oflags_refusal(fs, abs, oflags) is None ==> fs.nodes.contains_key(abs)
            && fs.nodes[abs] is Dir,
        oflags & 1 != 0 && oflags & 4 != 0 && fs.nodes.contains_key(abs) ==> oflags_refusal(
            fs,
            abs,
            oflags,
        ) is Some,
        oflags & 2 == 0 && (oflags & 1 == 0 || oflags & 4 == 0) ==> oflags_refusal(fs, abs, oflags)
            is None,
        oflags & 2 != 0 && !fs.nodes.contains_key(abs) ==> (oflags_refusal(fs, abs, oflags) matches Some(
            e,
        ) && e == 44),
        oflags & 2 != 0 && fs.nodes.contains_key(abs) && fs.nodes[abs] is File ==> (oflags_refusal(
            fs,
            abs,
            oflags,
        ) matches Some(e) && e == 8),
{
}

/// The states of the generator are the multiples of its step, from the first on, in 64
/// bits.
pub proof fn law_random_state_counts(n: nat)
    ensures
        random_state(n) as int == (n + 1) * 0x9e37_79b9_7f4a_7c15 % 0x1_0000_0000_0000_0000,
    decreases n,
{
    if n > 0 {
        law_random_state_counts((n - 1) as nat);
        let step = 0x9e37_79b9_7f4a_7c15int;
        let top = 0x1_0000_0000_0000_0000int;
        assert((n + 1) * step == n * step + step) by (nonlinear_arith);
        vstd::arithmetic::div_mod::lemma_add_mod_noop_right(step, n * step, top);
    }
}

/// Word `i` of the random bytes is what the state after `i` steps and one gives.
pub proof fn law_random_words_follow(n: nat, i: nat)
    requires
        i < n,
    ensures
        random_words(n).len() == 8 * n,
        random_words(n).subrange(8 * i as int, (8 * i + 8) as int) == le_bytes(
            random_mix(random_state(i + 1)) as nat,
            8,
        ),
    decreases n,
{
    lemma_random_words_len(n);
    lemma_random_words_len((n - 1) as nat);
    let last = le_bytes(random_mix(random_state(n)) as nat, 8);
    lemma_le_bytes_len(random_mix(random_state(n)) as nat, 8);
    if i < n - 1 {
        law_random_words_follow((n - 1) as nat, i);
        assert(random_words(n).subrange(8 * i as int, (8 * i + 8) as int) =~= random_words(
            (n - 1) as nat,
        ).subrange(8 * i as int, (8 * i + 8) as int));
    } else {
        assert(random_words(n).subrange(8 * i as int, (8 * i + 8) as int) =~= last);
    }
}

/// An `fd_write` to standard output or error of a list that is not complete captures
/// what came before and is refused, and one whose list leaves memory captures nothing
/// and is refused. Neither writes a count.
pub proof fn law_fd_write_refusals(
    before: (Streams, Seq<u8>),
    after: (Streams, Seq<u8>),
    fd: i32,
    iovs_ptr: i32,
    iovs_len: i32,
    nwritten_ptr: i32,
    r: i32,
)
    requires
        write_done(before, after, fd, iovs_ptr, iovs_len, nwritten_ptr, r),
        0 <= iovs_len,
    ensures
        iovs_ptr as u32 + 8 * iovs_len > before.1.len() ==> r == 8 && after == before,
        iovs_ptr as u32 + 8 * iovs_len <= before.1.len() ==> {
            let list = buffers(before.1, iovs_ptr as u32 as int, iovs_len as int);
            (fd == 1 || fd == 2) && !list.1 && list.0.flatten().len() <= i32::MAX ==> {
                &&& r == 8
                &&& after.1 == before.1
                &&& after.0.out == before.0.out + list.0.flatten()
            }
        },
{
    assert(iovs_len as u32 == iovs_len);
    let list = buffers(before.1, addr(iovs_ptr), iovs_len as int);
    if (fd == 1 || fd == 2) && list.0.flatten().len() <= i32::MAX {
        law_chunks_join_in_output(before.0, fd, list.0, 0);
    }
}

/// From the standard descriptors `fd_read` reads nothing, and says so at `nread_ptr`.
/// What is not open is `EBADF`, and so is a list that leaves memory: then nothing changes.
pub proof fn law_fd_read_refusals(
    before: (FsView, Seq<u8>),
    after: (FsView, Seq<u8>),
    fd: i32,
    iovs_ptr: i32,
    iovs_len: i32,
    nread_ptr: i32,
    r: i32,
)
    requires
        read_done(before, after, fd, iovs_ptr, iovs_len, nread_ptr, r),
        0 <= iovs_len,
    ensures
        ({
            let at = nread_ptr as u32 as int;
            let refused = before.0.fd(fd) is None || iovs_ptr as u32 + 8 * iovs_len
                > before.1.len();
            &&& fd < 3 ==> after.0 == before.0
            &&& fd < 3 && at + 4 <= before.1.len() ==> r == 0 && word_at(after.1, at) == 0
            &&& fd < 3 && at + 4 > before.1.len() ==> after.1 == before.1
            &&& fd >= 3 && refused ==> r == 8 && after == before
        }),
{
    assert(iovs_len as u32 == iovs_len);
    if fd < 3 && nread_ptr as u32 + 4 <= before.1.len() {
        lemma_word_reads_back(before.1, nread_ptr as u32 as int, 0);
    }
}

/// From the standard descriptors `fd_pread` reads nothing, and says so at `nread_ptr`.
/// What is not open is `EBADF`, and so is a list that leaves memory: then nothing changes.
pub proof fn law_fd_pread_refusals(
    fs: FsView,
    before: Seq<u8>,
    after: Seq<u8>,
    fd: i32,
    iovs_ptr: i32,
    iovs_len: i32,
    offset: i64,
    nread_ptr: i32,
    r: i32,
)
    requires
        pread_done(fs, before, after, fd, iovs_ptr, iovs_len, offset, nread_ptr, r),
        0 <= iovs_len,
    ensures
        ({
            let at = nread_ptr as u32 as int;
            let refused = fs.fd(fd) is None || iovs_ptr as u32 + 8 * iovs_len > before.len();
            &&& fd < 3 && at + 4 <= before.len() ==> r == 0 && word_at(after, at) == 0
            &&& fd < 3 && at + 4 > before.len() ==> after == before
            &&& fd >= 3 && refused ==> r == 8 && after == before
        }),
{
    assert(iovs_len as u32 == iovs_len);
    if fd < 3 && nread_ptr as u32 + 4 <= before.len() {
        lemma_word_reads_back(before, nread_ptr as u32 as int, 0);
    }
}

/// The standard descriptors stand at 0 wherever they are sought to. A seek of what is not
/// open is `EBADF`, one in no known direction `EINVAL`, and one to before the start of a
/// file `EINVAL` too: then nothing changes.
pub proof fn law_fd_seek_refusals(
    before: (FsView, Seq<u8>),
    after: (FsView, Seq<u8>),
    fd: i32,
    offset: i64,
    whence: i32,
    newoffset_ptr: i32,
    r: i32,
)
    requires
        seek_done(before, after, fd, offset, whence, newoffset_ptr, r),
    ensures
        ({
            let at = newoffset_ptr as u32 as int;
            &&& fd < 3 ==> after.0 == before.0
            &&& fd < 3 && at + 8 <= before.1.len() ==> r == 0 && le_value(
                after.1.subrange(at, at + 8),
            ) == 0
            &&& fd >= 3 && before.0.fd(fd) is None ==> r == 8 && after == before
            &&& fd >= 3 && before.0.fd(fd) is Some && (whence < 0 || whence > 2 || (whence == 0
                && offset < 0)) ==> r == 28 && after == before
        }),
{
    law_wide_value_is_told(before.1, newoffset_ptr, 0, 8);
}

/// Multiplying by `c` and then by its inverse gives back what was there.
proof fn lemma_product_is_undone(x: u64, c: u64, inverse: u64)
    requires
        c * inverse % 0x1_0000_0000_0000_0000 == 1,
    ensures
        x.wrapping_mul(c).wrapping_mul(inverse) == x,
{
    let top = 0x1_0000_0000_0000_0000int;
    let (xi, ci, di) = (x as int, c as int, inverse as int);
    vstd::arithmetic::div_mod::lemma_mul_mod_noop_left(xi * ci, di, top);
    vstd::arithmetic::mul::lemma_mul_is_associative(xi, ci, di);
    vstd::arithmetic::div_mod::lemma_mul_mod_noop_right(xi, ci * di, top);
    assert(xi * 1 == xi);
    vstd::arithmetic::div_mod::lemma_small_mod(x as nat, top as nat);
}

/// No two states give the same value: undoing the two products, with the inverses of
/// their factors, and the three shifts leads from the value back to the state.
pub proof fn law_random_mix_is_undone(state: u64)
    ensures
        ({
            let v = random_mix(state);
            let b = (v ^ (v >> 31) ^ (v >> 62)).wrapping_mul(0x3196_42b2_d24d_8ec3);
            let a = (b ^ (b >> 27) ^ (b >> 54)).wrapping_mul(0x96de_1b17_3f11_9089);
            a ^ (a >> 30) ^ (a >> 60) == state
        }),
{
    let s = state ^ (state >> 30);
    let a = s.wrapping_mul(0xbf58_476d_1ce4_e5b9);
    let t = a ^ (a >> 27);
    let b = t.wrapping_mul(0x94d0_49bb_1331_11eb);
    let v = b ^ (b >> 31);
    assert(v ^ (v >> 31) ^ (v >> 62) == b) by (bit_vector)
        requires
            v == b ^ (b >> 31),
    ;
    lemma_product_is_undone(t, 0x94d0_49bb_1331_11eb, 0x3196_42b2_d24d_8ec3);
    assert(t ^ (t >> 27) ^ (t >> 54) == a) by (bit_vector)
        requires
            t == a ^ (a >> 27),
    ;
    lemma_product_is_undone(s, 0xbf58_476d_1ce4_e5b9, 0x96de_1b17_3f11_9089);
    assert(s ^ (s >> 30) ^ (s >> 60) == state) by (bit_vector)
        requires
            s == state ^ (state >> 30),
    ;
}

/// Descriptor 3, opened on the root, is a preopened directory: the guest reads tag 0 and
/// a name of one byte, and that byte is a slash. Any other descriptor is `EBADF`, and
/// memory is as it was.
pub proof fn law_root_is_preopened(fs: FsView, mem: Seq<u8>, fd: i32, ptr: i32, len: i32)
    ensures
        ({
            let at = ptr as u32 as int;
            let root = fd == 3 && (fs.fd(fd) matches Some(d) && d.path == seq!['/']);
            let (told, r) = prestat_told(fs, mem, fd, ptr);
            let (named, n) = prestat_name_told(fs, mem, fd, ptr, len);
            &&& root && at + 8 <= mem.len() ==> {
                &&& r == 0
                &&& word_at(told, at) == 0
                &&& word_at(told, at + 4) == 1
            }
            &&& root && len != 0 && at + 1 <= mem.len() ==> n == 0 && named == mem.update(at, 47u8)
            &&& root && len == 0 && at <= mem.len() ==> n == 0 && named == mem
            &&& !root ==> r == 8 && told == mem && n == 8 && named == mem
        }),
{
    let at = ptr as u32 as int;
    let record = seq![0u8, 0, 0, 0, 1, 0, 0, 0];
    if at + 8 <= mem.len() {
        law_splice_reads_back(mem, at, record);
        let after = splice(mem, at, record);
        assert(after.subrange(at, at + 4) =~= record.subrange(0, 4));
        assert(after.subrange(at + 4, at + 8) =~= record.subrange(4, 8));
        assert(after[at] == 0 && after[at + 1] == 0 && after[at + 2] == 0 && after[at + 3] == 0);
        assert(after[at + 4] == 1 && after[at + 5] == 0 && after[at + 6] == 0 && after[at + 7] == 0);
        law_word_digits(after, at);
        law_word_digits(after, at + 4);
    }
    if at + 1 <= mem.len() {
        assert(splice(mem, at, seq![47u8]) =~= mem.update(at, 47u8));
    }
    if at <= mem.len() {
        assert(splice(mem, at, Seq::<u8>::empty()) =~= mem);
    }
}

/// Every clock shows the last day of the year 2025 at midnight, in nanoseconds since the
/// epoch, with a resolution of one nanosecond.
pub proof fn law_clocks_stand_still(mem: Seq<u8>, ptr: i32)
    requires
        ptr as u32 + 8 <= mem.len(),
    ensures
        ({
            let at = ptr as u32 as int;
            let (time, t) = time_told(mem, ptr);
            let (resolution, r) = resolution_told(mem, ptr);
            &&& t == 0 && r == 0
            &&& le_value(time.subrange(at, at + 8)) == 20453 * 86400 * 1_000_000_000
            &&& le_value(resolution.subrange(at, at + 8)) == 1
        }),
{
    law_wide_value_is_told(mem, ptr, VIRTUAL_EPOCH_NS, 1);
    law_wide_value_is_told(mem, ptr, 1, 1);
}

} // verus!
