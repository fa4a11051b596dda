//! Threads and futexes of a guest.
//!
//! A guest thread is a runtime instance of its own, which the embedding's worker
//! coordinator spawns and reaps. A futex word lies in the memory of the instance
//! that waits on it; the embedding parks and wakes.

use vstd::prelude::*;

use crate::bytes::{
    addr, addr_of, guest_range, in_range, law_word_digits, le_bytes, lemma_le_bytes_len,
    lemma_word_reads_back, signed_at, splice, u32_at, word_at, write_u32,
};
use crate::emscripten_invoke::{read_table, sig_views, table_sigs, ImportSig};
use crate::emscripten_multiprocessing::{map_worker_err, spawn_errno, SpawnError};

verus! {

/// Resource temporarily unavailable.
pub const EAGAIN: i32 = -11;

/// Invalid argument.
pub const EINVAL: i32 = -22;

/// Operation not permitted.
pub const EPERM: i32 = -1;

/// The waiter was woken, or the word has changed.
pub const WAIT_OK: i32 = 0;

/// The word did not hold the expected value.
pub const WAIT_NOT_EQUAL: i32 = 1;

/// Time ran out.
pub const WAIT_TIMED_OUT: i32 = 2;

/// Imports that need no more than to return 0: each instance is a process of its
/// own, so its locks, conditions and thread-local keys have no contention.
pub const PTHREAD_STUBS: &'static str = "\
    ii i pthread_mutex_init pthread_mutex_destroy pthread_mutex_lock pthread_mutex_unlock \
    pthread_mutex_trylock pthread_cond_init pthread_cond_destroy pthread_cond_signal \
    pthread_cond_broadcast pthread_cond_wait pthread_key_create pthread_setspecific;\
    iii i pthread_cond_timedwait;\
    i i pthread_key_delete pthread_getspecific pthread_detach";

/// The imports that return 0, with their signatures.
pub fn pthread_stubs() -> (r: Vec<ImportSig>)
    ensures
        sig_views(r@) == table_sigs(PTHREAD_STUBS@),
{
    read_table(PTHREAD_STUBS)
}

/// Why `pthread_create` does not even try: `EAGAIN` without the grant to spawn,
/// or without a coordinator to spawn with.
pub fn pthread_create_refusal(granted: bool, has_workers: bool) -> (r: Option<i32>)
    ensures
        r == if granted && has_workers {
            None
        } else {
            Some(EAGAIN)
        },
{
    if granted && has_workers {
        None
    } else {
        Some(EAGAIN)
    }
}

/// Memory after the guest was told a word, if it asked for it and there is room.
pub open spec fn word_told(mem: Seq<u8>, ptr: i32, v: nat) -> Seq<u8> {
    if ptr != 0 && guest_range(mem, ptr, 4) {
        splice(mem, addr(ptr), le_bytes(v, 4))
    } else {
        mem
    }
}

/// A word that the guest is told is read at its place, and no other byte of memory
/// changes. A guest that gave no place, or one outside memory, is told nothing.
pub proof fn law_word_is_told(mem: Seq<u8>, ptr: i32, v: u32)
    ensures
        ({
            let after = word_told(mem, ptr, v as nat);
            let at = ptr as u32;
            &&& after.len() == mem.len()
            &&& ptr == 0 || at + 4 > mem.len() ==> after == mem
            &&& ptr != 0 && at + 4 <= mem.len() ==> word_at(after, at as int) == v
            &&& forall|i: int|
                0 <= i < mem.len() && !(at <= i < at + 4) ==> #[trigger] after[i] == mem[i]
        }),
{
    lemma_le_bytes_len(v as nat, 4);
    if ptr != 0 && guest_range(mem, ptr, 4) {
        lemma_word_reads_back(mem, addr(ptr), v as nat);
    }
}

fn tell_word(mem: &mut [u8], ptr: i32, v: u32)
    ensures
        final(mem)@ == word_told(old(mem)@, ptr, v as nat),
{
    if ptr != 0 {
        write_u32(mem, ptr, v);
    }
}

/// Complete `pthread_create`: the id of the new worker goes to `thread_ptr`.
pub fn finish_pthread_create(
    mem: &mut [u8],
    thread_ptr: i32,
    spawned: Result<i32, SpawnError>,
) -> (r: i32)
    ensures
        match spawned {
            Err(e) => r == spawn_errno(e) && final(mem)@ == old(mem)@,
            Ok(id) => r == 0 && final(mem)@ == word_told(old(mem)@, thread_ptr, id as u32 as nat),
        },
{
    match spawned {
        Err(e) => map_worker_err(e),
        Ok(id) => {
            tell_word(mem, thread_ptr, id as u32);
            0
        },
    }
}

/// Why `pthread_join` does not wait: there is no coordinator.
pub fn pthread_join_refusal(has_workers: bool) -> (r: Option<i32>)
    ensures
        r == if has_workers {
            None
        } else {
            Some(EINVAL)
        },
{
    if has_workers {
        None
    } else {
        Some(EINVAL)
    }
}

/// Whether the exit of worker `exited` is what `pthread_join` on `thread_id` waits
/// for.
pub fn join_ends(thread_id: i32, exited: Option<i32>) -> (r: bool)
    ensures
        r == (exited == Some(thread_id)),
{
    match exited {
        Some(id) => id == thread_id,
        None => false,
    }
}

/// Complete `pthread_join`: a thread always returns NULL.
pub fn finish_pthread_join(mem: &mut [u8], retval_ptr: i32) -> (r: i32)
    ensures
        r == 0,
        final(mem)@ == word_told(old(mem)@, retval_ptr, 0),
{
    tell_word(mem, retval_ptr, 0);
    0
}

/// The thread id of an instance: that of its worker, or 0 if it is none.
pub fn pthread_self(worker: Option<i32>) -> (r: i32)
    ensures
        r == match worker {
            Some(id) => id,
            None => 0i32,
        },
{
    match worker {
        Some(id) => id,
        None => 0,
    }
}

/// How a futex wait goes on.
#[derive(Debug, Clone, Copy, PartialEq, Eq, Structural)]
pub enum FutexStep {
    /// The guest gets this value.
    Return(i32),
    /// Park until woken; the guest then gets `WAIT_OK`.
    Park,
    /// Look at the word again until it changes or this many milliseconds are
    /// over.
    Poll(u64),
}

/// How a futex wait on the word at `ptr` begins.
pub open spec fn waiting(
    mem: Seq<u8>,
    ptr: i32,
    expected: i32,
    timeout_ms: i64,
    coordinated: bool,
) -> FutexStep {
    if !coordinated {
        FutexStep::Return(WAIT_OK)
    } else if !guest_range(mem, ptr, 4) {
        FutexStep::Return(EINVAL)
    } else if word_at(mem, addr(ptr)) != expected as u32 {
        FutexStep::Return(WAIT_NOT_EQUAL)
    } else if timeout_ms < 0 {
        FutexStep::Park
    } else {
        FutexStep::Poll(timeout_ms as u64)
    }
}

/// A waiter that others could wake sleeps exactly if the word holds the value that it
/// expects: for as long as it said, or until it is woken. Any other waiter goes on at
/// once, with 1 if the word holds another value and with `EINVAL` if there is no word.
pub proof fn law_waiter_sleeps_on_expected(mem: Seq<u8>, ptr: i32, expected: i32, timeout_ms: i64)
    ensures
        ({
            let r = waiting(mem, ptr, expected, timeout_ms, true);
            let at = ptr as u32 as int;
            &&& at + 4 > mem.len() ==> (r matches FutexStep::Return(v) && v == -22)
            &&& at + 4 <= mem.len() && signed_at(mem, at) != expected ==> (
            r matches FutexStep::Return(v) && v == 1)
            &&& at + 4 <= mem.len() && signed_at(mem, at) == expected && timeout_ms < 0 ==> r
                == FutexStep::Park
            &&& at + 4 <= mem.len() && signed_at(mem, at) == expected && timeout_ms >= 0 ==> (
            r matches FutexStep::Poll(ms) && ms == timeout_ms)
            &&& waiting(mem, ptr, expected, timeout_ms, false) matches FutexStep::Return(v) && v == 0
        }),
{
    let at = ptr as u32 as int;
    if at + 4 <= mem.len() {
        law_word_digits(mem, at);
        let w = word_at(mem, at) as u32;
        assert((w as i32 == expected) == (w == expected as u32)) by (bit_vector);
    }
}

/// Begin a futex wait on the word at `ptr`. Without a coordinator of shared
/// memory nobody could wake the waiter, and it goes on at once. A word outside
/// memory is `EINVAL`; one that does not hold the expected value ends the wait.
/// A negative timeout is none.
pub fn futex_wait(
    mem: &[u8],
    ptr: i32,
    expected: i32,
    timeout_ms: i64,
    coordinated: bool,
) -> (r: FutexStep)
    ensures
        r == waiting(mem@, ptr, expected, timeout_ms, coordinated),
{
    if !coordinated {
        return FutexStep::Return(WAIT_OK);
    }
    let at: usize = addr_of(ptr);
    if !in_range(mem.len(), at, 4) {
        return FutexStep::Return(EINVAL);
    }
    if u32_at(mem, at) != expected as u32 {
        return FutexStep::Return(WAIT_NOT_EQUAL);
    }
    if timeout_ms < 0 {
        FutexStep::Park
    } else {
        FutexStep::Poll(timeout_ms as u64)
    }
}

/// The result of one look at a futex word, if the wait ends with it.
pub open spec fn looking(current: u32, expected: i32, expired: bool) -> Option<i32> {
    if current != expected as u32 {
        Some(WAIT_OK)
    } else if expired {
        Some(WAIT_TIMED_OUT)
    } else {
        None
    }
}

/// A poll ends with 0 as soon as the word holds another value than the expected one, be
/// it at the deadline; while it holds that value, with 2 at the deadline and not before.
pub proof fn law_poll_ends_on_change(current: u32, expected: i32)
    ensures
        current as i32 != expected ==> (looking(current, expected, false) matches Some(v) && v == 0)
            && (looking(current, expected, true) matches Some(v) && v == 0),
        current as i32 == expected ==> looking(current, expected, false) is None && (looking(
            current,
            expected,
            true,
        ) matches Some(v) && v == 2),
{
    assert((current as i32 == expected) == (current == expected as u32)) by (bit_vector);
}

/// One look at a futex word while polling: the result of the wait, or `None` to
/// look again. A change is noticed even at the deadline.
pub fn futex_look(current: u32, expected: i32, expired: bool) -> (r: Option<i32>)
    ensures
        r == looking(current, expected, expired),
{
    if current != expected as u32 {
        Some(WAIT_OK)
    } else if expired {
        Some(WAIT_TIMED_OUT)
    } else {
        None
    }
}

/// Whom a futex wake wakes.
#[derive(Debug, Clone, Copy, PartialEq, Eq, Structural)]
pub enum FutexWake {
    Nobody,
    One,
    Everybody,
}

/// Whom a futex wake on the word at `ptr` wakes, and how many the guest is told.
pub open spec fn waking(mem: Seq<u8>, ptr: i32, count: i32) -> (FutexWake, i32) {
    if !guest_range(mem, ptr, 4) {
        (FutexWake::Nobody, 0i32)
    } else if count == 1 {
        (FutexWake::One, 1i32)
    } else {
        (
            FutexWake::Everybody,
            if count > 0 {
                count
            } else {
                0i32
            },
        )
    }
}

/// One waiter is woken exactly if just one is asked for, and nobody exactly if there is
/// no word. The guest is told as many as it asked for, and never a negative number.
pub proof fn law_wake_tells_what_was_asked(mem: Seq<u8>, ptr: i32, count: i32)
    ensures
        ({
            let (who, told) = waking(mem, ptr, count);
            let there = ptr as u32 + 4 <= mem.len();
            &&& who == FutexWake::Nobody <==> !there
            &&& who == FutexWake::One <==> there && count == 1
            &&& there && count > 0 ==> told == count
            &&& !there || count <= 0 ==> told == 0
        }),
{
}

/// A futex wake on the word at `ptr`: whom to wake, and how many waiters the
/// guest is told were notified.
pub fn futex_wake(mem: &[u8], ptr: i32, count: i32) -> (r: (FutexWake, i32))
    ensures
        r == waking(mem@, ptr, count),
{
    let at: usize = addr_of(ptr);
    if !in_range(mem.len(), at, 4) {
        return (FutexWake::Nobody, 0);
    }
    if count == 1 {
        (FutexWake::One, 1)
    } else if count > 0 {
        (FutexWake::Everybody, count)
    } else {
        (FutexWake::Everybody, 0)
    }
}

} // verus!
