//! The two records that the filesystem hands to the guest: the Emscripten
//! `struct stat` and the musl `struct linux_dirent64`.
//!
//! `struct stat` (little-endian):
//!
//! ```text
//! offset  size  field
//!  0       4    st_dev
//!  4       4    st_mode
//!  8       4    st_nlink
//!  12      12   st_uid, st_gid, st_rdev
//!  24      8    st_size
//!  32      4    st_blksize
//!  36      4    st_blocks
//!  40      48   st_atim, st_mtim, st_ctim
//!  88      8    st_ino
//! ```
//!
//! `struct linux_dirent64`:
//!
//! ```text
//! offset  size  field
//!  0       8    d_ino
//!  8       8    d_off (index of the next entry)
//!  16      2    d_reclen
//!  18      1    d_type (4 = directory, 8 = regular file)
//!  19      1+   d_name, NUL-terminated, padded to a multiple of 8
//! ```

use vstd::prelude::*;
use vstd::utf8::encode_utf8;

use crate::bytes::{
    lemma_le_bytes_len, lemma_low_2, lemma_low_4, splice, u16_bytes, u32_bytes,
    u64_bytes, write_at, zeros, le_bytes,
};

verus! {

/// Size of the Emscripten wasm32 `struct stat`: exactly this many bytes are
/// written, since the guest allocates no more.
pub const EM_STAT_STRUCT_BYTES: usize = 96;

/// The `struct stat` of a node: device 1, one link, 4096-byte blocks, all
/// timestamps at the epoch.
pub open spec fn stat_record(ino: nat, mode: nat, size: nat) -> Seq<u8> {
    le_bytes(1, 4) + le_bytes(mode, 4) + le_bytes(1, 4) + zeros(12) + le_bytes(size, 8) + le_bytes(
        4096,
        4,
    ) + le_bytes((size + 511) / 512, 4) + zeros(48) + le_bytes(ino, 8)
}

/// The length of the directory record for `name`: 19 bytes of header, the name
/// in UTF-8 and a NUL, rounded up to a multiple of 8.
pub open spec fn dirent_len(name: Seq<char>) -> int {
    (encode_utf8(name).len() as int + 27) / 8 * 8
}

/// The directory record for one entry.
pub open spec fn dirent(ino: nat, off: nat, name: Seq<char>, is_dir: bool) -> Seq<u8> {
    le_bytes(ino, 8) + le_bytes(off, 8) + le_bytes(dirent_len(name) as nat, 2) + seq![
        if is_dir {
            4u8
        } else {
            8u8
        },
    ] + encode_utf8(name) + zeros((dirent_len(name) - 19 - encode_utf8(name).len()) as nat)
}

/// A `struct stat` has the size the guest allocates for it.
pub proof fn lemma_stat_record_len(ino: nat, mode: nat, size: nat)
    ensures
        stat_record(ino, mode, size).len() == EM_STAT_STRUCT_BYTES,
{
    lemma_le_bytes_len(1, 4);
    lemma_le_bytes_len(mode, 4);
    lemma_le_bytes_len(size, 8);
    lemma_le_bytes_len(4096, 4);
    lemma_le_bytes_len((size + 511) / 512, 4);
    lemma_le_bytes_len(ino, 8);
}

/// A directory record is as long as its `d_reclen` says, a positive multiple of
/// 8.
pub proof fn lemma_dirent_len(ino: nat, off: nat, name: Seq<char>, is_dir: bool)
    ensures
        dirent(ino, off, name, is_dir).len() == dirent_len(name),
        dirent_len(name) % 8 == 0,
        dirent_len(name) >= 20 + encode_utf8(name).len(),
{
    lemma_le_bytes_len(ino, 8);
    lemma_le_bytes_len(off, 8);
    lemma_le_bytes_len(dirent_len(name) as nat, 2);
}

/// The fields of a `struct stat` stand at their offsets.
pub proof fn law_stat_fields(ino: nat, mode: nat, size: nat)
    ensures
        stat_record(ino, mode, size).len() == 96,
        stat_record(ino, mode, size).subrange(0, 4) == le_bytes(1, 4),
        stat_record(ino, mode, size).subrange(4, 8) == le_bytes(mode, 4),
        stat_record(ino, mode, size).subrange(8, 12) == le_bytes(1, 4),
        forall|i: int| 12 <= i < 24 ==> #[trigger] stat_record(ino, mode, size)[i] == 0,
        stat_record(ino, mode, size).subrange(24, 32) == le_bytes(size, 8),
        stat_record(ino, mode, size).subrange(32, 36) == le_bytes(4096, 4),
        stat_record(ino, mode, size).subrange(36, 40) == le_bytes((size + 511) / 512, 4),
        forall|i: int| 40 <= i < 88 ==> #[trigger] stat_record(ino, mode, size)[i] == 0,
        stat_record(ino, mode, size).subrange(88, 96) == le_bytes(ino, 8),
{
    lemma_le_bytes_len(1, 4);
    lemma_le_bytes_len(mode, 4);
    lemma_le_bytes_len(size, 8);
    lemma_le_bytes_len(4096, 4);
    lemma_le_bytes_len((size + 511) / 512, 4);
    lemma_le_bytes_len(ino, 8);
    let r = stat_record(ino, mode, size);
    assert(r.subrange(4, 8) =~= le_bytes(mode, 4));
    assert(r.subrange(24, 32) =~= le_bytes(size, 8));
    assert(r.subrange(36, 40) =~= le_bytes((size + 511) / 512, 4));
    assert(r.subrange(88, 96) =~= le_bytes(ino, 8));
}

/// The fields of a directory record stand at their offsets.
pub proof fn law_dirent_fields(ino: nat, off: nat, name: Seq<char>, is_dir: bool)
    ensures
        ({
            let r = dirent(ino, off, name, is_dir);
            let n = encode_utf8(name).len();
            &&& r.subrange(0, 8) == le_bytes(ino, 8)
            &&& r.subrange(8, 16) == le_bytes(off, 8)
            &&& r.subrange(16, 18) == le_bytes(r.len(), 2)
            &&& r[18] == if is_dir {
                4u8
            } else {
                8u8
            }
            &&& r.subrange(19, (19 + n) as int) == encode_utf8(name)
            &&& r[(19 + n) as int] == 0
            &&& r.len() % 8 == 0
            &&& 20 + n <= r.len() < 28 + n
            &&& forall|i: int| 19 + n <= i < r.len() ==> #[trigger] r[i] == 0
        }),
{
    lemma_dirent_len(ino, off, name, is_dir);
    lemma_le_bytes_len(ino, 8);
    lemma_le_bytes_len(off, 8);
    lemma_le_bytes_len(dirent_len(name) as nat, 2);
    let r = dirent(ino, off, name, is_dir);
    let n = encode_utf8(name).len();
    assert(r.subrange(0, 8) =~= le_bytes(ino, 8));
    assert(r.subrange(8, 16) =~= le_bytes(off, 8));
    assert(r.subrange(16, 18) =~= le_bytes(r.len(), 2));
    assert(r.subrange(19, (19 + n) as int) =~= encode_utf8(name));
}

/// Write the `struct stat` of a node over the first `EM_STAT_STRUCT_BYTES`
/// bytes of `buf`. The rest of `buf` is left alone.
pub fn write_stat_buf(buf: &mut [u8], ino: u64, mode: u32, size: u64)
    requires
        old(buf)@.len() >= EM_STAT_STRUCT_BYTES,
    ensures
        final(buf)@ == splice(old(buf)@, 0, stat_record(ino as nat, mode as nat, size as nat)),
{
    let blocks: u64 = size / 512 + (if size % 512 != 0 {
        1
    } else {
        0
    });
    proof {
        lemma_stat_record_len(ino as nat, mode as nat, size as nat);
        lemma_low_4(blocks as nat);
        assert(blocks == (size + 511) / 512);
    }
    let mut rec = u32_bytes(1);
    let mut f_mode = u32_bytes(mode);
    rec.append(&mut f_mode);
    let mut f_nlink = u32_bytes(1);
    rec.append(&mut f_nlink);
    rec.append(&mut zero_bytes(12));
    let mut f_size = u64_bytes(size);
    rec.append(&mut f_size);
    let mut f_blksize = u32_bytes(4096);
    rec.append(&mut f_blksize);
    let mut f_blocks = u32_bytes((blocks % 0x1_0000_0000) as u32);
    rec.append(&mut f_blocks);
    rec.append(&mut zero_bytes(48));
    let mut f_ino = u64_bytes(ino);
    rec.append(&mut f_ino);
    assert(rec@ =~= stat_record(ino as nat, mode as nat, size as nat));
    write_at(buf, 0, &rec);
}

/// A vector of `n` zero bytes.
pub fn zero_bytes(n: usize) -> (r: Vec<u8>)
    ensures
        r@ == zeros(n as nat),
{
    let mut r: Vec<u8> = Vec::new();
    r.resize(n, 0);
    assert(r@ =~= zeros(n as nat));
    r
}

/// Serialize a single `struct linux_dirent64` entry into `out[pos..]`.
/// Returns the number of bytes written, or 0 (and `out` unchanged) if the entry
/// does not fit. The entry is padded so `d_reclen` is a multiple of 8.
pub fn write_dirent64(
    out: &mut [u8],
    pos: usize,
    ino: u64,
    off: u64,
    name: &str,
    is_dir: bool,
) -> (n: usize)
    ensures
        pos + dirent_len(name@) > old(out)@.len() ==> n == 0 && final(out)@ == old(out)@,
        pos + dirent_len(name@) <= old(out)@.len() ==> n == dirent_len(name@) && final(out)@
            == splice(old(out)@, pos as int, dirent(ino as nat, off as nat, name@, is_dir)),
{
    let name_bytes = name.as_bytes();
    let len: usize = name_bytes.len();
    let room: usize = out.len();
    if len > room || pos > room {
        return 0;
    }
    // Wider arithmetic than the buffer's, so that rounding up cannot overflow.
    let reclen: u128 = (len as u128 + 27) / 8 * 8;
    if pos as u128 + reclen > room as u128 {
        return 0;
    }
    proof {
        lemma_dirent_len(ino as nat, off as nat, name@, is_dir);
        lemma_low_2(reclen as nat);
    }
    let mut rec = u64_bytes(ino);
    let mut f_off = u64_bytes(off);
    rec.append(&mut f_off);
    let mut f_reclen = u16_bytes((reclen % 65536) as u16);
    rec.append(&mut f_reclen);
    rec.push(if is_dir {
        4
    } else {
        8
    });
    rec.extend_from_slice(name_bytes);
    let mut pad = zero_bytes((reclen - 19) as usize - len);
    rec.append(&mut pad);
    assert(rec@ =~= dirent(ino as nat, off as nat, name@, is_dir));
    write_at(out, pos, &rec);
    reclen as usize
}

} // verus!
