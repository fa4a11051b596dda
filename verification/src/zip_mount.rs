//! Mounting a ZIP archive into the in-memory filesystem.
//!
//! The archive is read front to back by its local file headers:
//!
//! | offset | field             | bytes |
//! |--------|-------------------|-------|
//! | 0      | signature         | 4     |
//! | 8      | compression       | 2     |
//! | 18     | compressed size   | 4     |
//! | 22     | uncompressed size | 4     |
//! | 26     | name length       | 2     |
//! | 28     | extra length      | 2     |
//! | 30     | name              |       |
//!
//! The extra field and the packed bytes follow the name. Entries are stored
//! (compression 0) or deflated (8); an entry packed in any other way is passed
//! over, and so is one whose name is not UTF-8. An entry whose name ends with a slash
//! is a directory, every other one a file, be it empty.

use flate2::read::DeflateDecoder;

use vstd::prelude::*;
use vstd::slice::slice_to_vec;
use vstd::utf8::*;

use crate::bytes::{
    bytes_at, law_le_round_trip, le_bytes, le_limit, le_value, lemma_le_bytes_len, u16_at, u32_at,
    word_at,
};
use crate::emscripten_fs::{with_dirs, with_file_at, InMemFs, NodeView};
use crate::fs_path::{
    canonical, canonicalize, law_canonical_idempotent, law_names_of_render, law_path_steps,
    law_render_steps, names, plain_name, plain_names, render,
};
use crate::text::{chars_of, concat, string_from_utf8};

verus! {

/// Signature of a local file header.
pub const LOCAL_HEADER: u32 = 0x04034b50;

/// Signature of a central directory header.
pub const CENTRAL_HEADER: u32 = 0x02014b50;

/// Signature of the end-of-central-directory record.
pub const END_RECORD: u32 = 0x06054b50;

/// Length of a local file header up to the name.
pub const HEADER_BYTES: usize = 30;

/// Compression method of an entry that is stored as it is.
pub const STORED: u16 = 0;

/// Compression method of an entry that is packed with DEFLATE.
pub const DEFLATED: u16 = 8;

/// One entry of an archive.
pub struct ZipEntry {
    pub name: String,
    /// The compression method.
    pub method: u16,
    /// The bytes of the entry as they stand in the archive.
    pub packed: Vec<u8>,
    /// The size that the header gives for the unpacked contents.
    pub full_size: u32,
}

/// What an entry holds.
#[verifier::ext_equal]
pub struct EntryView {
    pub name: Seq<char>,
    pub method: u16,
    pub packed: Seq<u8>,
    pub full_size: u32,
}

impl View for ZipEntry {
    type V = EntryView;

    open spec fn view(&self) -> EntryView {
        EntryView {
            name: self.name@,
            method: self.method,
            packed: self.packed@,
            full_size: self.full_size,
        }
    }
}

impl EntryView {
    /// Whether the entry is a directory: its name ends with a slash.
    pub open spec fn is_dir(self) -> bool {
        self.name.len() > 0 && self.name.last() == '/'
    }

    /// Whether the entry's contents stand in the archive as they are: it is stored,
    /// or there are none.
    pub open spec fn is_plain(self) -> bool {
        self.method == STORED || (self.full_size == 0 && self.packed.len() == 0)
    }

    /// Where the entry goes under `prefix`.
    pub open spec fn path(self, prefix: Seq<char>) -> Seq<char> {
        canonical(prefix + "/"@ + self.name)
    }
}

/// The 16-bit value at `at`.
pub open spec fn half_at(s: Seq<u8>, at: int) -> nat {
    le_value(s.subrange(at, at + 2))
}

/// What stands at one position of an archive.
#[verifier::ext_equal]
pub enum StepView {
    /// An entry, and the position behind it.
    Entry(EntryView, int),
    /// Nothing of use; reading goes on at a later position.
    Skip(int),
    /// The end of the entries.
    Stop,
}

/// What stands at `pos` of the archive `d`. Reading stops at the central
/// directory and where fewer bytes are left than a header or its entry needs.
/// Bytes that are no header are passed over one by one, an entry whose name is not
/// UTF-8 as a whole.
pub open spec fn zip_step(d: Seq<u8>, pos: int) -> StepView {
    if pos + HEADER_BYTES > d.len() {
        StepView::Stop
    } else if word_at(d, pos) == LOCAL_HEADER {
        let name_end = pos + HEADER_BYTES + half_at(d, pos + 26);
        let start = name_end + half_at(d, pos + 28);
        let end = start + word_at(d, pos + 18);
        if name_end > d.len() || end > d.len() {
            StepView::Stop
        } else if !valid_utf8(d.subrange(pos + HEADER_BYTES, name_end)) {
            StepView::Skip(end)
        } else {
            StepView::Entry(
                EntryView {
                    name: decode_utf8(d.subrange(pos + HEADER_BYTES, name_end)),
                    method: half_at(d, pos + 8) as u16,
                    packed: d.subrange(start, end),
                    full_size: word_at(d, pos + 22) as u32,
                },
                end,
            )
        }
    } else if word_at(d, pos) == CENTRAL_HEADER || word_at(d, pos) == END_RECORD {
        StepView::Stop
    } else {
        StepView::Skip(pos + 1)
    }
}

/// The entries of the archive `d` from position `pos` on.
pub open spec fn archive_entries(d: Seq<u8>, pos: int) -> Seq<EntryView>
    decreases d.len() - pos,
{
    match zip_step(d, pos) {
        StepView::Stop => Seq::empty(),
        StepView::Skip(next) => archive_entries(d, next),
        StepView::Entry(e, next) => seq![e] + archive_entries(d, next),
    }
}

/// What a step over an archive found.
pub enum ZipStep {
    Entry(ZipEntry, usize),
    Skip(usize),
    Stop,
}

impl View for ZipStep {
    type V = StepView;

    open spec fn view(&self) -> StepView {
        match self {
            ZipStep::Entry(e, next) => StepView::Entry(e@, *next as int),
            ZipStep::Skip(next) => StepView::Skip(*next as int),
            ZipStep::Stop => StepView::Stop,
        }
    }
}

/// Read what stands at `pos`.
pub fn read_step(d: &[u8], pos: usize) -> (r: ZipStep)
    requires
        pos <= d@.len(),
    ensures
        r@ == zip_step(d@, pos as int),
{
    let len: usize = d.len();
    if len - pos < HEADER_BYTES {
        return ZipStep::Stop;
    }
    let signature: u32 = u32_at(d, pos);
    if signature != LOCAL_HEADER {
        if signature == CENTRAL_HEADER || signature == END_RECORD {
            return ZipStep::Stop;
        }
        return ZipStep::Skip(pos + 1);
    }
    let method: u16 = u16_at(d, pos + 8);
    let packed_size: u32 = u32_at(d, pos + 18);
    let full_size: u32 = u32_at(d, pos + 22);
    let name_len: u16 = u16_at(d, pos + 26);
    let extra_len: u16 = u16_at(d, pos + 28);
    let name_start: usize = pos + HEADER_BYTES;
    if len - name_start < name_len as usize {
        return ZipStep::Stop;
    }
    let name_end: usize = name_start + name_len as usize;
    if len - name_end < extra_len as usize {
        return ZipStep::Stop;
    }
    let start: usize = name_end + extra_len as usize;
    if ((len - start) as u64) < packed_size as u64 {
        return ZipStep::Stop;
    }
    let end: usize = start + packed_size as usize;
    let name_bytes = bytes_at(d, name_start, name_len as usize);
    assert(name_bytes@ =~= d@.subrange(pos + HEADER_BYTES, name_end as int));
    match string_from_utf8(name_bytes) {
        None => ZipStep::Skip(end),
        Some(name) => {
            let packed = bytes_at(d, start, packed_size as usize);
            ZipStep::Entry(ZipEntry { name, method, packed, full_size }, end)
        },
    }
}

/// What unpacking a DEFLATE stream gives: the contents, or the text of the
/// error.
pub uninterp spec fn inflated(packed: Seq<u8>) -> Result<Seq<u8>, Seq<char>>;

/// What unpacking came to, as plain values.
pub open spec fn outcome(r: Result<Vec<u8>, String>) -> Result<Seq<u8>, Seq<char>> {
    match r {
        Ok(contents) => Ok(contents@),
        Err(message) => Err(message@),
    }
}

/// Unpack a raw DEFLATE stream with `flate2`'s `read::DeflateDecoder`, read to
/// its end. The result is named: a stream unpacks to the same contents every
/// time, or fails with the same message.
#[verifier::external_body]
fn inflate(packed: &[u8]) -> (r: Result<Vec<u8>, String>)
    ensures
        outcome(r) == inflated(packed@),
{
    let mut out: Vec<u8> = Vec::new();
    match std::io::Read::read_to_end(&mut DeflateDecoder::new(packed), &mut out) {
        Ok(_) => Ok(out),
        Err(e) => Err(e.to_string()),
    }
}

/// The message for an entry that could not be unpacked.
pub open spec fn fault_text(name: Seq<char>, message: Seq<char>) -> Seq<char> {
    "deflate error for "@ + name + ": "@ + message
}

/// What becomes of an entry.
pub enum Placing {
    /// A directory is made.
    Dir,
    /// A file with these contents is made.
    File(Seq<u8>),
    /// The entry is passed over.
    Pass,
    /// Mounting ends with this message.
    Fault(Seq<char>),
}

impl EntryView {
    /// What becomes of the entry, given what unpacking it came to.
    pub open spec fn placing(self, unpacked: Result<Seq<u8>, Seq<char>>) -> Placing {
        if self.is_dir() {
            Placing::Dir
        } else if self.is_plain() {
            Placing::File(self.packed)
        } else if self.method == DEFLATED {
            match unpacked {
                Ok(contents) => Placing::File(contents),
                Err(message) => Placing::Fault(fault_text(self.name, message)),
            }
        } else {
            Placing::Pass
        }
    }
}

/// `nodes` after what was decided of the entry at `path`.
pub open spec fn with_placing(
    nodes: Map<Seq<char>, NodeView>,
    path: Seq<char>,
    placing: Placing,
) -> Map<Seq<char>, NodeView> {
    match placing {
        Placing::Dir => with_dirs(nodes, names(path)),
        Placing::File(contents) => with_file_at(nodes, path, contents),
        Placing::Pass => nodes,
        Placing::Fault(_) => nodes,
    }
}

/// Mounting `entries` one after the other: the nodes afterwards, and how many
/// files were made or the message of the first fault.
pub open spec fn mounted(
    nodes: Map<Seq<char>, NodeView>,
    prefix: Seq<char>,
    entries: Seq<EntryView>,
    count: nat,
) -> (Map<Seq<char>, NodeView>, Result<nat, Seq<char>>)
    decreases entries.len(),
{
    if entries.len() == 0 {
        (nodes, Ok(count))
    } else {
        let e = entries[0];
        let placing = e.placing(inflated(e.packed));
        let next = with_placing(nodes, e.path(prefix), placing);
        match placing {
            Placing::Fault(message) => (nodes, Err(message)),
            Placing::File(_) => mounted(next, prefix, entries.skip(1), count + 1),
            _ => mounted(next, prefix, entries.skip(1), count),
        }
    }
}

impl ZipEntry {
    /// Whether the entry is a directory.
    pub fn is_dir(&self) -> (r: bool)
        ensures
            r == self@.is_dir(),
    {
        let name = chars_of(self.name.as_str());
        let n: usize = name.len();
        n > 0 && name[n - 1] == '/'
    }

    /// Whether the entry's contents stand in the archive as they are.
    pub fn is_plain(&self) -> (r: bool)
        ensures
            r == self@.is_plain(),
    {
        self.method == STORED || (self.full_size == 0 && self.packed.len() == 0)
    }

    /// Place the entry under `prefix`, given what unpacking it came to. Returns
    /// whether it was a file entry, or the message of the fault.
    pub fn place(
        &self,
        fs: &mut InMemFs,
        prefix: &str,
        unpacked: Result<Vec<u8>, String>,
    ) -> (r: Result<bool, String>)
        requires
            old(fs).wf(),
        ensures
            final(fs).wf(),
            final(fs)@ == old(fs)@.with_nodes(
                with_placing(
                    old(fs)@.nodes,
                    self@.path(prefix@),
                    self@.placing(outcome(unpacked)),
                ),
            ),
            match self@.placing(outcome(unpacked)) {
                Placing::Fault(message) => r is Err && r->Err_0@ == message,
                Placing::File(_) => r == Ok::<bool, String>(true),
                _ => r == Ok::<bool, String>(false),
            },
    {
        let dir = concat(prefix, "/");
        let joined = concat(dir.as_str(), self.name.as_str());
        let path = canonicalize(joined.as_str());
        proof {
            law_canonical_idempotent(joined@);
            assert(fs@.with_nodes(fs@.nodes) == fs@);
        }
        if self.is_dir() {
            fs.mkdir_p(path.as_str());
            Ok(false)
        } else if self.is_plain() {
            fs.insert_file(path.as_str(), slice_to_vec(self.packed.as_slice()));
            Ok(true)
        } else if self.method == DEFLATED {
            match unpacked {
                Ok(contents) => {
                    fs.insert_file(path.as_str(), contents);
                    Ok(true)
                },
                Err(message) => {
                    let mut text = concat("deflate error for ", self.name.as_str());
                    text.append(": ");
                    text.append(message.as_str());
                    Err(text)
                },
            }
        } else {
            Ok(false)
        }
    }
}

/// Mount the contents of a ZIP archive into `fs` under `prefix`: each file of the
/// archive, an empty one too, goes to its name below `prefix`, and directories are
/// created as needed. An entry whose path comes out as the root itself is counted
/// but leaves the root alone.
///
/// Returns how many file entries there were, or a message if an entry cannot be
/// unpacked; the entries before it then stay mounted.
pub fn mount_zip_into_fs(fs: &mut InMemFs, prefix: &str, zip_data: &[u8]) -> (r: Result<
    usize,
    String,
>)
    requires
        old(fs).wf(),
    ensures
        final(fs).wf(),
        ({
            let (nodes, result) = mounted(
                old(fs)@.nodes,
                prefix@,
                archive_entries(zip_data@, 0),
                0,
            );
            &&& final(fs)@ == old(fs)@.with_nodes(nodes)
            &&& match result {
                Ok(count) => r is Ok && r->Ok_0 == count,
                Err(message) => r is Err && r->Err_0@ == message,
            }
        }),
{
    let ghost entries = archive_entries(zip_data@, 0);
    let ghost want = mounted(fs@.nodes, prefix@, entries, 0);
    let mut count: usize = 0;
    let mut pos: usize = 0;
    assert(fs@.with_nodes(fs@.nodes) == fs@);
    loop
        invariant
            fs.wf(),
            fs@ == old(fs)@.with_nodes(fs@.nodes),
            pos <= zip_data@.len(),
            count <= pos,
            want == mounted(old(fs)@.nodes, prefix@, archive_entries(zip_data@, 0), 0),
            want == mounted(
                fs@.nodes,
                prefix@,
                archive_entries(zip_data@, pos as int),
                count as nat,
            ),
        decreases zip_data@.len() - pos,
    {
        match read_step(zip_data, pos) {
            ZipStep::Stop => {
                return Ok(count);
            },
            ZipStep::Skip(next) => {
                pos = next;
            },
            ZipStep::Entry(entry, next) => {
                let ghost rest = archive_entries(zip_data@, next as int);
                assert((seq![entry@] + rest).skip(1) =~= rest);
                assert(archive_entries(zip_data@, pos as int) == seq![entry@] + rest);
                let unpacked = if !entry.is_dir() && !entry.is_plain() && entry.method == DEFLATED {
                    inflate(entry.packed.as_slice())
                } else {
                    Ok(Vec::new())
                };
                assert(entry@.placing(outcome(unpacked)) == entry@.placing(
                    inflated(entry@.packed),
                ));
                match entry.place(fs, prefix, unpacked) {
                    Err(message) => {
                        return Err(message);
                    },
                    Ok(made) => {
                        if made {
                            count = count + 1;
                        }
                    },
                }
                pos = next;
            },
        }
    }
}

/// An entry together with the header fields that mounting does not look at.
pub struct RecordView {
    pub entry: EntryView,
    /// Needed version and flags.
    pub needs: Seq<u8>,
    /// Time, date and checksum.
    pub stamp: Seq<u8>,
    pub extra: Seq<u8>,
}

impl RecordView {
    /// Whether every field fits the place that the header has for it.
    pub open spec fn fits(self) -> bool {
        &&& self.needs.len() == 4
        &&& self.stamp.len() == 8
        &&& encode_utf8(self.entry.name).len() < 0x1_0000
        &&& self.extra.len() < 0x1_0000
        &&& self.entry.packed.len() < 0x1_0000_0000
    }

    /// The header up to the name.
    pub open spec fn header(self) -> Seq<u8> {
        le_bytes(LOCAL_HEADER as nat, 4) + self.needs + le_bytes(self.entry.method as nat, 2)
            + self.stamp + le_bytes(self.entry.packed.len(), 4) + le_bytes(
            self.entry.full_size as nat,
            4,
        ) + le_bytes(encode_utf8(self.entry.name).len(), 2) + le_bytes(self.extra.len(), 2)
    }

    /// The bytes of the record in an archive.
    pub open spec fn bytes(self) -> Seq<u8> {
        self.header() + encode_utf8(self.entry.name) + self.extra + self.entry.packed
    }
}

/// Records one after the other.
pub open spec fn record_bytes(records: Seq<RecordView>) -> Seq<u8>
    decreases records.len(),
{
    if records.len() == 0 {
        Seq::empty()
    } else {
        records[0].bytes() + record_bytes(records.skip(1))
    }
}

/// What follows the entries of an archive: the central directory, the end record,
/// or too few bytes for a header.
pub open spec fn ends_entries(tail: Seq<u8>) -> bool {
    ||| tail.len() < HEADER_BYTES
    ||| word_at(tail, 0) == CENTRAL_HEADER
    ||| word_at(tail, 0) == END_RECORD
}

/// The header's fields stand where they are read.
proof fn lemma_header_fields(r: RecordView)
    requires
        r.fits(),
    ensures
        r.header().len() == HEADER_BYTES,
        word_at(r.header(), 0) == LOCAL_HEADER,
        half_at(r.header(), 8) == r.entry.method,
        word_at(r.header(), 18) == r.entry.packed.len(),
        word_at(r.header(), 22) == r.entry.full_size,
        half_at(r.header(), 26) == encode_utf8(r.entry.name).len(),
        half_at(r.header(), 28) == r.extra.len(),
{
    let h = r.header();
    let name_len = encode_utf8(r.entry.name).len();
    reveal_with_fuel(le_limit, 5);
    lemma_le_bytes_len(LOCAL_HEADER as nat, 4);
    lemma_le_bytes_len(r.entry.method as nat, 2);
    lemma_le_bytes_len(r.entry.packed.len(), 4);
    lemma_le_bytes_len(r.entry.full_size as nat, 4);
    lemma_le_bytes_len(name_len, 2);
    lemma_le_bytes_len(r.extra.len(), 2);
    law_le_round_trip(LOCAL_HEADER as nat, 4);
    law_le_round_trip(r.entry.method as nat, 2);
    law_le_round_trip(r.entry.packed.len(), 4);
    law_le_round_trip(r.entry.full_size as nat, 4);
    law_le_round_trip(name_len, 2);
    law_le_round_trip(r.extra.len(), 2);
    assert(h.subrange(0, 4) =~= le_bytes(LOCAL_HEADER as nat, 4));
    assert(h.subrange(8, 10) =~= le_bytes(r.entry.method as nat, 2));
    assert(h.subrange(18, 22) =~= le_bytes(r.entry.packed.len(), 4));
    assert(h.subrange(22, 26) =~= le_bytes(r.entry.full_size as nat, 4));
    assert(h.subrange(26, 28) =~= le_bytes(name_len, 2));
    assert(h.subrange(28, 30) =~= le_bytes(r.extra.len(), 2));
}

/// A record in an archive is read back as the entry it was made of, whatever
/// stands around it.
pub proof fn law_record_reads_back(before: Seq<u8>, r: RecordView, after: Seq<u8>)
    requires
        r.fits(),
    ensures
        zip_step(before + r.bytes() + after, before.len() as int) == StepView::Entry(
            r.entry,
            (before.len() + r.bytes().len()) as int,
        ),
{
    let d = before + r.bytes() + after;
    let pos = before.len() as int;
    let h = r.header();
    let name = encode_utf8(r.entry.name);
    lemma_header_fields(r);
    assert(d.subrange(pos, pos + 4) =~= h.subrange(0, 4));
    assert(d.subrange(pos + 8, pos + 10) =~= h.subrange(8, 10));
    assert(d.subrange(pos + 18, pos + 22) =~= h.subrange(18, 22));
    assert(d.subrange(pos + 22, pos + 26) =~= h.subrange(22, 26));
    assert(d.subrange(pos + 26, pos + 28) =~= h.subrange(26, 28));
    assert(d.subrange(pos + 28, pos + 30) =~= h.subrange(28, 30));
    let name_end = pos + HEADER_BYTES + name.len();
    let start = name_end + r.extra.len();
    assert(d.subrange(pos + HEADER_BYTES, name_end) =~= name);
    assert(d.subrange(start, start + r.entry.packed.len()) =~= r.entry.packed);
    encode_utf8_valid_utf8(r.entry.name);
    encode_utf8_decode_utf8(r.entry.name);
}

/// The same bytes, grouped in three ways.
proof fn lemma_regroup(before: Seq<u8>, first: Seq<u8>, rest: Seq<u8>, tail: Seq<u8>)
    ensures
        before + (first + rest) + tail == before + first + (rest + tail),
        before + (first + rest) + tail == (before + first) + rest + tail,
{
    assert(before + (first + rest) + tail =~= before + first + (rest + tail));
    assert(before + (first + rest) + tail =~= (before + first) + rest + tail);
}

/// The entries read from an archive are those that its records were made of, in
/// the same order.
#[verifier::spinoff_prover]
#[verifier::rlimit(30)]
pub proof fn law_archive_reads_back(before: Seq<u8>, records: Seq<RecordView>, tail: Seq<u8>)
    requires
        forall|i: int| 0 <= i < records.len() ==> (#[trigger] records[i]).fits(),
        ends_entries(tail),
    ensures
        archive_entries(before + record_bytes(records) + tail, before.len() as int)
            == records.map_values(|r: RecordView| r.entry),
    decreases records.len(),
{
    let d = before + record_bytes(records) + tail;
    let pos = before.len() as int;
    let entries = records.map_values(|r: RecordView| r.entry);
    if records.len() == 0 {
        if tail.len() >= HEADER_BYTES {
            assert(d.subrange(pos, pos + 4) =~= tail.subrange(0, 4));
        }
        assert(entries =~= Seq::<EntryView>::empty());
    } else {
        let r = records[0];
        let rest = records.skip(1);
        let after = record_bytes(rest) + tail;
        lemma_regroup(before, r.bytes(), record_bytes(rest), tail);
        assert(record_bytes(records) == r.bytes() + record_bytes(rest));
        law_record_reads_back(before, r, after);
        let before2 = before + r.bytes();
        assert forall|i: int| 0 <= i < rest.len() implies (#[trigger] rest[i]).fits() by {
            assert(rest[i] == records[i + 1]);
        }
        law_archive_reads_back(before2, rest, tail);
        assert(d == before2 + record_bytes(rest) + tail);
        assert(entries =~= seq![r.entry] + rest.map_values(|r: RecordView| r.entry));
    }
}

/// A file entry, once placed below the root, is a file with its contents at its
/// path under the prefix; every other node that was there before is as it was.
pub proof fn law_file_is_placed(
    nodes: Map<Seq<char>, NodeView>,
    path: Seq<char>,
    contents: Seq<u8>,
    other: Seq<char>,
)
    requires
        path != seq!['/'],
    ensures
        ({
            let after = with_placing(nodes, path, Placing::File(contents));
            &&& after.contains_key(path) && after[path] == NodeView::File(contents)
            &&& other != path && nodes.contains_key(other) ==> after.contains_key(other)
                && after[other] == nodes[other]
        }),
{
}

/// Mounting an archive removes no node.
pub proof fn law_mounting_removes_nothing(
    nodes: Map<Seq<char>, NodeView>,
    prefix: Seq<char>,
    entries: Seq<EntryView>,
    count: nat,
    path: Seq<char>,
)
    requires
        nodes.contains_key(path),
    ensures
        mounted(nodes, prefix, entries, count).0.contains_key(path),
    decreases entries.len(),
{
    if entries.len() > 0 {
        let e = entries[0];
        let placing = e.placing(inflated(e.packed));
        let next = with_placing(nodes, e.path(prefix), placing);
        match placing {
            Placing::Fault(_) => {},
            Placing::File(_) => {
                law_mounting_removes_nothing(next, prefix, entries.skip(1), count + 1, path);
            },
            _ => {
                law_mounting_removes_nothing(next, prefix, entries.skip(1), count, path);
            },
        }
    }
}

/// No entry goes to the path `p`.
pub open spec fn not_among(p: Seq<char>, prefix: Seq<char>, entries: Seq<EntryView>) -> bool {
    forall|i: int| 0 <= i < entries.len() ==> (#[trigger] entries[i]).path(prefix) != p
}

/// Mounting an archive of stored files, empty ones too, at pairwise different paths
/// below the root makes every one of them a file with the contents it was packed
/// with, counts them, and leaves the nodes at other paths alone.
pub proof fn law_stored_files_mount(
    nodes: Map<Seq<char>, NodeView>,
    prefix: Seq<char>,
    entries: Seq<EntryView>,
    count: nat,
)
    requires
        forall|i: int|
            0 <= i < entries.len() ==> !(#[trigger] entries[i]).is_dir() && entries[i].method
                == STORED && entries[i].path(prefix) != seq!['/'],
        forall|i: int, j: int|
            0 <= i < j < entries.len() ==> (#[trigger] entries[i]).path(prefix) != (
            #[trigger] entries[j]).path(prefix),
    ensures
        mounted(nodes, prefix, entries, count).1 == Ok::<nat, Seq<char>>(count + entries.len()),
        forall|i: int|
            0 <= i < entries.len() ==> {
                let p = (#[trigger] entries[i]).path(prefix);
                &&& mounted(nodes, prefix, entries, count).0.contains_key(p)
                &&& mounted(nodes, prefix, entries, count).0[p] == NodeView::File(
                    entries[i].packed,
                )
            },
        forall|p: Seq<char>|
            nodes.contains_key(p) && #[trigger] not_among(p, prefix, entries)
                ==> mounted(nodes, prefix, entries, count).0.contains_key(p) && mounted(
                nodes,
                prefix,
                entries,
                count,
            ).0[p] == nodes[p],
    decreases entries.len(),
{
    if entries.len() > 0 {
        let e = entries[0];
        let rest = entries.skip(1);
        let next = with_placing(nodes, e.path(prefix), e.placing(inflated(e.packed)));
        assert forall|i: int| 0 <= i < rest.len() implies !(#[trigger] rest[i]).is_dir()
            && rest[i].method == STORED && rest[i].path(prefix) != seq!['/'] by {
            assert(rest[i] == entries[i + 1]);
        }
        assert forall|i: int, j: int| 0 <= i < j < rest.len() implies (
        #[trigger] rest[i]).path(prefix) != (#[trigger] rest[j]).path(prefix) by {
            assert(entries[i + 1].path(prefix) != entries[j + 1].path(prefix));
        }
        law_stored_files_mount(next, prefix, rest, count + 1);
        let end = mounted(nodes, prefix, entries, count).0;
        assert(end == mounted(next, prefix, rest, count + 1).0);
        assert forall|i: int| 0 <= i < entries.len() implies {
            let p = (#[trigger] entries[i]).path(prefix);
            end.contains_key(p) && end[p] == NodeView::File(entries[i].packed)
        } by {
            let p = entries[i].path(prefix);
            if i == 0 {
                assert forall|k: int| 0 <= k < rest.len() implies (#[trigger] rest[k]).path(prefix)
                    != p by {
                    assert(entries[0].path(prefix) != entries[k + 1].path(prefix));
                }
                assert(not_among(p, prefix, rest));
            } else {
                assert(entries[i] == rest[i - 1]);
            }
        }
        assert forall|p: Seq<char>|
            nodes.contains_key(p) && #[trigger] not_among(
                p,
                prefix,
                entries,
            ) implies end.contains_key(p) && end[p] == nodes[p] by {
            assert(entries[0].path(prefix) != p);
            assert forall|k: int| 0 <= k < rest.len() implies (#[trigger] rest[k]).path(prefix)
                != p by {
                assert(entries[k + 1].path(prefix) != p);
            }
            assert(next.contains_key(p) && next[p] == nodes[p]);
            assert(not_among(p, prefix, rest));
        }
    }
}

/// What becomes of an entry: one whose name ends with a slash is a directory. A file that
/// is stored (method 0) has the bytes that stand in the archive, and one that is deflated
/// (method 8) those that unpacking gives; if that fails mounting ends with a message that
/// names the entry and the reason. An entry packed in any other way is passed over.
pub proof fn law_entry_is_placed(e: EntryView, unpacked: Result<Seq<u8>, Seq<char>>)
    ensures
        e.name.len() > 0 && e.name.last() == '/' ==> e.placing(unpacked) is Dir,
        !(e.name.len() > 0 && e.name.last() == '/') ==> {
            &&& e.method == 0 ==> e.placing(unpacked) == Placing::File(e.packed)
            &&& e.method == 8 && e.packed.len() > 0 ==> match unpacked {
                Ok(contents) => e.placing(unpacked) == Placing::File(contents),
                Err(reason) => e.placing(unpacked) == Placing::Fault(
                    "deflate error for "@ + e.name + ": "@ + reason,
                ),
            }
            &&& e.method != 0 && e.method != 8 && e.packed.len() > 0 ==> e.placing(unpacked) is Pass
            &&& e.packed.len() == 0 && e.full_size == 0 ==> e.placing(unpacked) == Placing::File(
                Seq::empty(),
            )
        },
{
    if e.packed.len() == 0 {
        assert(e.packed =~= Seq::empty());
    }
}

/// An entry with a plain name goes right into the directory that it is mounted under.
pub proof fn law_entry_goes_below_prefix(e: EntryView, dir: Seq<Seq<char>>)
    requires
        plain_names(dir),
        plain_name(e.name),
    ensures
        names(e.path(render(dir))) == dir.push(e.name),
        dir.len() > 0 ==> e.path(render(dir)) == render(dir) + seq!['/'] + e.name,
        dir.len() == 0 ==> e.path(render(dir)) == seq!['/'] + e.name,
{
    reveal_strlit("/");
    let prefix = render(dir);
    assert(prefix + "/"@ + e.name =~= prefix.push('/') + e.name);
    law_names_of_render(dir);
    law_path_steps(prefix, e.name);
    law_render_steps(dir, e.name);
    let all = dir.push(e.name);
    assert(plain_names(all)) by {
        assert forall|i: int| 0 <= i < all.len() implies plain_name(#[trigger] all[i]) by {
            if i < dir.len() {
                assert(plain_name(dir[i]));
            }
        }
    }
    law_names_of_render(all);
}

/// Mounting ends at the first entry that cannot be unpacked: its message is the result,
/// and what was mounted before it stays.
pub proof fn law_fault_ends_mounting(
    nodes: Map<Seq<char>, NodeView>,
    prefix: Seq<char>,
    entries: Seq<EntryView>,
    count: nat,
    e: EntryView,
    rest: Seq<EntryView>,
    reason: Seq<char>,
)
    requires
        mounted(nodes, prefix, entries, count).1 is Ok,
        e.method == 8,
        e.packed.len() > 0,
        !e.is_dir(),
        inflated(e.packed) == Err::<Seq<u8>, Seq<char>>(reason),
    ensures
        mounted(nodes, prefix, entries + seq![e] + rest, count).0 == mounted(
            nodes,
            prefix,
            entries,
            count,
        ).0,
        mounted(nodes, prefix, entries + seq![e] + rest, count).1 == Err::<nat, Seq<char>>(
            "deflate error for "@ + e.name + ": "@ + reason,
        ),
    decreases entries.len(),
{
    let all = entries + seq![e] + rest;
    if entries.len() == 0 {
        assert(all[0] == e);
    } else {
        let first = entries[0];
        assert(all[0] == first);
        assert(all.skip(1) =~= entries.skip(1) + seq![e] + rest);
        let placing = first.placing(inflated(first.packed));
        let next = with_placing(nodes, first.path(prefix), placing);
        match placing {
            Placing::Fault(_) => {},
            Placing::File(_) => {
                law_fault_ends_mounting(
                    next,
                    prefix,
                    entries.skip(1),
                    count + 1,
                    e,
                    rest,
                    reason,
                );
            },
            _ => {
                law_fault_ends_mounting(next, prefix, entries.skip(1), count, e, rest, reason);
            },
        }
    }
}

} // verus!
