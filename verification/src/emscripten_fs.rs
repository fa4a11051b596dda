//! In-memory virtual filesystem for Emscripten-compiled modules.
//!
//! An [`InMemFs`] is a flat table from absolute path to node, plus a table of
//! open file descriptors. Descriptors 0, 1 and 2 (stdin, stdout, stderr) are
//! reserved: `open` never hands them out, and reads, writes and closes on them
//! answer `EBADF`. A descriptor may be marked as host-backed: the embedding then
//! performs its input and output on a real file, while path and position live
//! in the same table.
//!
//! Errors are the negative musl/Linux errno values that the `__syscall_*`
//! functions return.

use std::collections::HashSet;

use vstd::prelude::*;

use crate::bytes::{splice, write_at, zeros};
use crate::fs_laws::law_listing_exists;
use crate::fs_listing::{
    child_path, dir_prefix, entry_texts, entry_views, fitting, insert_sorted, is_child, is_listing,
    law_fitting_progress, law_listing_unique, lemma_records_fit, listed, listing, records,
    sorted_names, with_dots, write_entries,
};
use crate::fs_path::{
    canonical, canonicalize, is_canonical, law_canonical_is_canonical, names, names_of, parent,
    parent_of, plain_name, plain_names, render, render_path,
};
use crate::fs_records::{lemma_stat_record_len, stat_record, write_stat_buf, EM_STAT_STRUCT_BYTES};
use crate::text::{
    before, chars_of, concat, ends_with, has_prefix, has_suffix, lemma_text_before_irreflexive,
    lemma_text_before_transitive, same_text, starts_with, string_of, text_before, texts,
};

verus! {

broadcast use vstd::std_specs::hash::group_hash_axioms;

/// No such file or directory.
pub const ENOENT: i32 = -2;

/// Permission denied.
pub const EACCES: i32 = -13;

/// Bad file descriptor.
pub const EBADF: i32 = -9;

/// Not a directory.
pub const ENOTDIR: i32 = -20;

/// Is a directory.
pub const EISDIR: i32 = -21;

/// Invalid argument.
pub const EINVAL: i32 = -22;

/// Input/output error.
pub const EIO: i32 = -5;

/// File exists.
pub const EEXIST: i32 = -17;

/// Not a tty.
pub const ENOTTY: i32 = -59;

/// Open for writing only.
pub const O_WRONLY: i32 = 1;

/// Open for reading and writing.
pub const O_RDWR: i32 = 2;

/// Create the file if it is absent.
pub const O_CREAT: i32 = 64;

/// Truncate the file on opening.
pub const O_TRUNC: i32 = 512;

/// Mode of a regular file: `S_IFREG | 0755`.
pub const MODE_FILE: u32 = 0o100755;

/// Mode of a directory: `S_IFDIR | 0755`.
pub const MODE_DIR: u32 = 0o040755;

/// One node in the in-memory filesystem tree.
#[derive(Clone, Debug)]
pub enum FsNode {
    /// A regular file with its byte contents.
    File(Vec<u8>),
    /// A directory (children are found by path prefix).
    Dir,
}

/// What a node holds.
pub enum NodeView {
    File(Seq<u8>),
    Dir,
}

impl View for FsNode {
    type V = NodeView;

    open spec fn view(&self) -> NodeView {
        match self {
            FsNode::File(data) => NodeView::File(data@),
            FsNode::Dir => NodeView::Dir,
        }
    }
}

/// An open file descriptor: the path it was opened on and how far it has been
/// read.
#[derive(Clone, Debug)]
pub struct FdEntry {
    pub path: String,
    /// Byte offset for file reads (unused for directory descriptors).
    pub offset: u64,
    /// For directory descriptors: how many entries (including "." and "..")
    /// have already been returned.
    pub dir_cursor: usize,
}

/// What a descriptor holds.
pub struct FdView {
    pub path: Seq<char>,
    pub offset: u64,
    pub dir_cursor: usize,
}

impl View for FdEntry {
    type V = FdView;

    open spec fn view(&self) -> FdView {
        FdView { path: self.path@, offset: self.offset, dir_cursor: self.dir_cursor }
    }
}

/// Metadata returned by [`InMemFs::node_info`] for WASI `path_filestat_get`.
pub struct NodeInfo {
    /// Inode number (counted up, non-persistent).
    pub ino: u64,
    /// WASI filetype: 3 = directory, 4 = regular file.
    pub filetype: u8,
    /// File size in bytes (0 for directories).
    pub size: u64,
}

struct NodeEntry {
    path: String,
    node: FsNode,
}

/// In-memory filesystem: a table from absolute canonical path to node, plus a
/// file-descriptor table.
pub struct InMemFs {
    nodes: Vec<NodeEntry>,
    fds: Vec<Option<FdEntry>>,
    host_fds: HashSet<i32>,
    next_ino: u64,
}

/// What a filesystem holds.
#[verifier::ext_equal]
pub struct FsView {
    /// The node at each path.
    pub nodes: Map<Seq<char>, NodeView>,
    /// The descriptor table, indexed by descriptor number.
    pub fds: Seq<Option<FdView>>,
    /// The descriptors whose input and output go to a host file.
    pub host_fds: Set<i32>,
    /// The inode number that is handed out next.
    pub next_ino: u64,
}

pub open spec fn wants_write(flags: i32) -> bool {
    flags & O_WRONLY != 0 || flags & O_RDWR != 0
}

pub open spec fn wants_create(flags: i32) -> bool {
    flags & O_CREAT != 0
}

pub open spec fn wants_truncate(flags: i32) -> bool {
    flags & O_TRUNC != 0
}

/// `p` is the path of a node on the way from the root to `parts`, both ends
/// included.
pub open spec fn on_the_way(p: Seq<char>, parts: Seq<Seq<char>>) -> bool {
    exists|k: int| 0 <= k <= parts.len() && p == render(#[trigger] parts.take(k))
}

/// `nodes` with a directory added wherever one is missing on the way to `parts`.
pub open spec fn with_dirs(
    nodes: Map<Seq<char>, NodeView>,
    parts: Seq<Seq<char>>,
) -> Map<Seq<char>, NodeView> {
    Map::new(
        |p: Seq<char>| nodes.contains_key(p) || on_the_way(p, parts),
        |p: Seq<char>|
            if nodes.contains_key(p) {
                nodes[p]
            } else {
                NodeView::Dir
            },
    )
}

/// `nodes` with the directory part of `path` made to exist.
pub open spec fn with_parent_dirs(
    nodes: Map<Seq<char>, NodeView>,
    path: Seq<char>,
) -> Map<Seq<char>, NodeView> {
    match parent(path) {
        Some(dir) => with_dirs(nodes, names(dir)),
        None => nodes,
    }
}

/// Every path of the table is in canonical form.
pub open spec fn all_canonical(nodes: Map<Seq<char>, NodeView>) -> bool {
    forall|p: Seq<char>| #[trigger] nodes.contains_key(p) ==> is_canonical(p)
}

/// The root of the table is a directory.
pub open spec fn rooted(nodes: Map<Seq<char>, NodeView>) -> bool {
    nodes.contains_key(seq!['/']) && nodes[seq!['/']] is Dir
}

/// `nodes` after a file with `contents` was put at the canonical path `p`. The
/// root is a directory for good: no file takes its place.
pub open spec fn with_file_at(
    nodes: Map<Seq<char>, NodeView>,
    p: Seq<char>,
    contents: Seq<u8>,
) -> Map<Seq<char>, NodeView> {
    if p == seq!['/'] {
        nodes
    } else {
        with_parent_dirs(nodes, p).insert(p, NodeView::File(contents))
    }
}

/// The mode bits of a node.
pub open spec fn node_mode(node: NodeView) -> u32 {
    match node {
        NodeView::Dir => MODE_DIR,
        NodeView::File(_) => MODE_FILE,
    }
}

/// The size of a node: 0 for a directory.
pub open spec fn node_size(node: NodeView) -> nat {
    match node {
        NodeView::Dir => 0,
        NodeView::File(data) => data.len(),
    }
}

/// Where a read that starts at `offset` begins in `data`.
pub open spec fn read_start(data: Seq<u8>, offset: u64) -> int {
    if offset <= data.len() {
        offset as int
    } else {
        data.len() as int
    }
}

/// How many bytes a read of `room` bytes at `offset` gives.
pub open spec fn read_len(data: Seq<u8>, offset: u64, room: int) -> int {
    let available = data.len() - read_start(data, offset);
    if room <= available {
        room
    } else {
        available
    }
}

/// The bytes that a read of `room` bytes at `offset` gives.
pub open spec fn read_slice(data: Seq<u8>, offset: u64, room: int) -> Seq<u8> {
    data.subrange(
        read_start(data, offset),
        read_start(data, offset) + read_len(data, offset, room),
    )
}

/// `data` with `src` written at `offset`, zero-filled up to `offset` if it is
/// shorter.
pub open spec fn written_at(data: Seq<u8>, src: Seq<u8>, offset: int) -> Seq<u8> {
    let grown = if offset + src.len() > data.len() {
        data + zeros((offset + src.len() - data.len()) as nat)
    } else {
        data
    };
    splice(grown, offset, src)
}

impl FsView {
    /// The open descriptor `fd`, if there is one.
    pub open spec fn fd(self, fd: i32) -> Option<FdView> {
        if 0 <= fd < self.fds.len() {
            self.fds[fd as int]
        } else {
            None
        }
    }

    /// The contents of the regular file that `fd` refers to, or the error that
    /// reading it gives.
    pub open spec fn fd_file(self, fd: i32) -> Result<Seq<u8>, i32> {
        match self.fd(fd) {
            None => Err(EBADF),
            Some(e) => if !self.nodes.contains_key(e.path) {
                Err(ENOENT)
            } else {
                match self.nodes[e.path] {
                    NodeView::Dir => Err(EISDIR),
                    NodeView::File(data) => Ok(data),
                }
            },
        }
    }

    /// A descriptor number that can be used again: free, above stderr and not
    /// still held by a host file.
    pub open spec fn free_slot(self, i: int) -> bool {
        3 <= i < self.fds.len() && self.fds[i] is None && !self.host_fds.contains(i as i32)
    }

    /// The first reusable descriptor number from `i` on, or the length of the
    /// table.
    pub open spec fn free_from(self, i: int) -> int
        decreases self.fds.len() - i,
    {
        if i >= self.fds.len() {
            self.fds.len() as int
        } else if self.free_slot(i) {
            i
        } else {
            self.free_from(i + 1)
        }
    }

    /// The descriptor number that the next open takes.
    pub open spec fn next_fd(self) -> int {
        self.free_from(3)
    }

    /// The state after a fresh descriptor for `path` was added.
    pub open spec fn with_fd(self, path: Seq<char>) -> FsView {
        let entry = Some(FdView { path, offset: 0, dir_cursor: 0 });
        FsView {
            fds: if self.next_fd() < self.fds.len() {
                self.fds.update(self.next_fd(), entry)
            } else {
                self.fds.push(entry)
            },
            ..self
        }
    }

    /// Opening `p`: the state afterwards, and the descriptor or errno. The open
    /// fails with `ENOENT` if the node is absent and not to be created, and with
    /// `EISDIR` if a directory is to be written. Otherwise a missing file is
    /// created along with its directories, a file is truncated if that is asked
    /// for, and the next descriptor refers to it.
    pub open spec fn opened(self, p: Seq<char>, flags: i32) -> (FsView, i32) {
        if !self.nodes.contains_key(p) && !wants_create(flags) {
            (self, ENOENT)
        } else {
            self.opened_at(self.open_path(p), flags)
        }
    }

    /// The path of the node that opening `p` refers to: `p` itself if there is such
    /// a node, else where it is created, under its canonical form.
    pub open spec fn open_path(self, p: Seq<char>) -> Seq<char> {
        if self.nodes.contains_key(p) {
            p
        } else {
            canonical(p)
        }
    }

    /// Opening the node at `p`, which is created if it is missing.
    pub open spec fn opened_at(self, p: Seq<char>, flags: i32) -> (FsView, i32) {
        if self.nodes.contains_key(p) && self.nodes[p] is Dir && wants_write(flags) {
            (self, EISDIR)
        } else {
            let nodes = if !self.nodes.contains_key(p) {
                with_parent_dirs(self.nodes, p).insert(p, NodeView::File(Seq::empty()))
            } else if self.nodes[p] is File && wants_truncate(flags) && wants_write(flags) {
                self.nodes.insert(p, NodeView::File(Seq::empty()))
            } else {
                self.nodes
            };
            (self.with_nodes(nodes).with_fd(p), self.next_fd() as i32)
        }
    }

    /// The state with other nodes.
    pub open spec fn with_nodes(self, nodes: Map<Seq<char>, NodeView>) -> FsView {
        FsView { nodes, ..self }
    }

    /// The state with descriptor `fd` replaced.
    pub open spec fn with_entry(self, fd: i32, entry: FdView) -> FsView {
        FsView { fds: self.fds.update(fd as int, Some(entry)), ..self }
    }

    /// The state with descriptor `fd` at byte `offset`.
    pub open spec fn with_offset(self, fd: i32, offset: u64) -> FsView {
        self.with_entry(fd, FdView { offset, ..self.fd(fd)->0 })
    }

    /// The state with descriptor `fd` released.
    pub open spec fn without_fd(self, fd: i32) -> FsView {
        FsView {
            fds: self.fds.update(fd as int, None),
            host_fds: self.host_fds.remove(fd),
            ..self
        }
    }

    /// The state after one inode number was handed out. Numbers count up from 1 and
    /// start over rather than become 0.
    pub open spec fn with_next_ino(self) -> FsView {
        FsView {
            next_ino: if self.next_ino == u64::MAX {
                1
            } else {
                (self.next_ino + 1) as u64
            },
            ..self
        }
    }

    /// Whether `fd` is open on a file, in memory or on the host, rather than on a
    /// directory.
    pub open spec fn is_file_fd(self, fd: i32) -> bool {
        self.host_fds.contains(fd) || self.fd_file(fd) is Ok
    }

    /// How many entries have been read through the directory descriptor `fd`; 0 if
    /// it is not one.
    pub open spec fn dir_position(self, fd: i32) -> usize {
        match self.fd(fd) {
            Some(e) if !self.is_file_fd(fd) => e.dir_cursor,
            _ => 0,
        }
    }

    /// Removing the node at `p`: the state afterwards, and 0 or an errno. The root
    /// cannot be removed.
    pub open spec fn unlinked(self, p: Seq<char>) -> (FsView, i32) {
        if p == seq!['/'] {
            (self, EISDIR)
        } else if self.nodes.contains_key(p) {
            (self.with_nodes(self.nodes.remove(p)), 0)
        } else {
            (self, ENOENT)
        }
    }

    /// Whether `fd` can be closed: open and not one of the standard streams.
    pub open spec fn closable(self, fd: i32) -> bool {
        fd >= 3 && self.fd(fd) is Some
    }
}

/// Entry `i` of the node table is the node at `p`.
spec fn stands_at(s: Seq<NodeEntry>, p: Seq<char>, i: int) -> bool {
    0 <= i < s.len() && s[i].path@ == p
}

/// No path occurs twice.
spec fn distinct(s: Seq<NodeEntry>) -> bool {
    forall|i: int, j: int| 0 <= i < j < s.len() ==> #[trigger] s[i].path@ != #[trigger] s[j].path@
}

spec fn node_map(s: Seq<NodeEntry>) -> Map<Seq<char>, NodeView> {
    Map::new(
        |p: Seq<char>| exists|i: int| stands_at(s, p, i),
        |p: Seq<char>| s[choose|i: int| stands_at(s, p, i)].node@,
    )
}

spec fn fd_views(s: Seq<Option<FdEntry>>) -> Seq<Option<FdView>> {
    Seq::new(
        s.len(),
        |i: int|
            match s[i] {
                Some(e) => Some(e@),
                None => None,
            },
    )
}

proof fn lemma_node_map(s: Seq<NodeEntry>, i: int)
    requires
        distinct(s),
        0 <= i < s.len(),
    ensures
        node_map(s).contains_key(s[i].path@),
        node_map(s)[s[i].path@] == s[i].node@,
{
    let p = s[i].path@;
    assert(stands_at(s, p, i));
    let j = choose|j: int| stands_at(s, p, j);
    assert(stands_at(s, p, j));
    if j < i {
        assert(s[j].path@ != s[i].path@);
    } else if i < j {
        assert(s[i].path@ != s[j].path@);
    }
}

proof fn lemma_node_map_push(s: Seq<NodeEntry>, e: NodeEntry)
    requires
        distinct(s),
        !node_map(s).contains_key(e.path@),
    ensures
        distinct(s.push(e)),
        node_map(s.push(e)) == node_map(s).insert(e.path@, e.node@),
{
    let t = s.push(e);
    assert forall|i: int, j: int| 0 <= i < j < t.len() implies #[trigger] t[i].path@
        != #[trigger] t[j].path@ by {
        if j == s.len() {
            lemma_node_map(s, i);
        } else {
            assert(s[i].path@ != s[j].path@);
        }
    }
    assert forall|p: Seq<char>| #[trigger]
        node_map(t).contains_key(p) == node_map(s).insert(e.path@, e.node@).contains_key(p) && (
    node_map(t).contains_key(p) ==> node_map(t)[p] == node_map(s).insert(
        e.path@,
        e.node@,
    )[p]) by {
        if node_map(t).contains_key(p) {
            let i = choose|i: int| stands_at(t, p, i);
            lemma_node_map(t, i);
            if i < s.len() {
                assert(stands_at(s, p, i));
                lemma_node_map(s, i);
            }
        }
        if p == e.path@ {
            assert(stands_at(t, p, s.len() as int));
            lemma_node_map(t, s.len() as int);
        } else if node_map(s).contains_key(p) {
            let i = choose|i: int| stands_at(s, p, i);
            assert(stands_at(t, p, i));
        }
    }
    assert(node_map(t) =~= node_map(s).insert(e.path@, e.node@));
}

proof fn lemma_node_map_update(s: Seq<NodeEntry>, i: int, e: NodeEntry)
    requires
        distinct(s),
        0 <= i < s.len(),
        e.path@ == s[i].path@,
    ensures
        distinct(s.update(i, e)),
        node_map(s.update(i, e)) == node_map(s).insert(e.path@, e.node@),
{
    let t = s.update(i, e);
    assert forall|a: int, b: int| 0 <= a < b < t.len() implies #[trigger] t[a].path@
        != #[trigger] t[b].path@ by {
        assert(s[a].path@ != s[b].path@);
    }
    lemma_node_map(t, i);
    assert forall|p: Seq<char>| #[trigger]
        node_map(t).contains_key(p) == node_map(s).insert(e.path@, e.node@).contains_key(p) && (
    node_map(t).contains_key(p) ==> node_map(t)[p] == node_map(s).insert(
        e.path@,
        e.node@,
    )[p]) by {
        if node_map(t).contains_key(p) {
            let k = choose|k: int| stands_at(t, p, k);
            assert(stands_at(s, p, k));
            lemma_node_map(t, k);
            lemma_node_map(s, k);
        }
        if node_map(s).contains_key(p) {
            let k = choose|k: int| stands_at(s, p, k);
            assert(stands_at(t, p, k));
        }
    }
    assert(node_map(t) =~= node_map(s).insert(e.path@, e.node@));
}

proof fn lemma_node_map_remove(s: Seq<NodeEntry>, i: int)
    requires
        distinct(s),
        0 <= i < s.len(),
    ensures
        distinct(s.update(i, s.last()).drop_last()),
        node_map(s.update(i, s.last()).drop_last()) == node_map(s).remove(s[i].path@),
{
    let t = s.update(i, s.last()).drop_last();
    let n = s.len() - 1;
    assert forall|a: int, b: int| 0 <= a < b < t.len() implies #[trigger] t[a].path@
        != #[trigger] t[b].path@ by {
        let x = if a == i {
            n
        } else {
            a
        };
        let y = if b == i {
            n
        } else {
            b
        };
        if x < y {
            assert(s[x].path@ != s[y].path@);
        } else {
            assert(s[y].path@ != s[x].path@);
        }
    }
    let want = node_map(s).remove(s[i].path@);
    assert forall|p: Seq<char>| #[trigger]
        node_map(t).contains_key(p) == want.contains_key(p) && (node_map(t).contains_key(p)
        ==> node_map(t)[p] == want[p]) by {
        if node_map(t).contains_key(p) {
            let k = choose|k: int| stands_at(t, p, k);
            lemma_node_map(t, k);
            let x = if k == i {
                n
            } else {
                k
            };
            assert(stands_at(s, p, x));
            lemma_node_map(s, x);
            if x < i {
                assert(s[x].path@ != s[i].path@);
            } else {
                assert(s[i].path@ != s[x].path@);
            }
        }
        if want.contains_key(p) {
            let k = choose|k: int| stands_at(s, p, k);
            let x = if k == n {
                i
            } else {
                k
            };
            assert(stands_at(t, p, x));
        }
    }
    assert(node_map(t) =~= want);
}

proof fn lemma_node_map_finite(s: Seq<NodeEntry>)
    ensures
        node_map(s).dom().finite(),
{
    let paths = Seq::new(s.len(), |i: int| s[i].path@);
    assert forall|p: Seq<char>| #[trigger] node_map(s).dom().contains(p) implies paths.to_set().contains(
        p,
    ) by {
        let i = choose|i: int| stands_at(s, p, i);
        assert(paths[i] == p);
    }
    vstd::seq_lib::seq_to_set_is_finite(paths);
    vstd::set_lib::lemma_len_subset(node_map(s).dom(), paths.to_set());
}

impl View for InMemFs {
    type V = FsView;

    closed spec fn view(&self) -> FsView {
        FsView {
            nodes: node_map(self.nodes@),
            fds: fd_views(self.fds@),
            host_fds: self.host_fds@,
            next_ino: self.next_ino,
        }
    }
}

impl InMemFs {
    /// The filesystem's invariant: no path occurs twice, every path is canonical, the
    /// root is a directory, inode numbers are not 0, and the three standard
    /// descriptors are reserved.
    pub closed spec fn wf(&self) -> bool {
        &&& distinct(self.nodes@)
        &&& all_canonical(self@.nodes)
        &&& rooted(self@.nodes)
        &&& self.next_ino > 0
        &&& self.fds@.len() >= 3
        &&& self.fds@[0] is None
        &&& self.fds@[1] is None
        &&& self.fds@[2] is None
    }

    /// The root is always a directory, every path is canonical, and the next inode
    /// number is not 0.
    pub proof fn law_tree_is_sound(&self)
        requires
            self.wf(),
        ensures
            rooted(self@.nodes),
            all_canonical(self@.nodes),
            self@.next_ino > 0,
    {
    }

    /// Descriptors 0, 1 and 2 are never open.
    pub proof fn law_standard_fds_reserved(&self, fd: i32)
        requires
            self.wf(),
            fd < 3,
        ensures
            self@.fd(fd) is None,
            self@.fds.len() >= 3,
    {
    }

    /// The table holds finitely many nodes, so every directory has a listing.
    pub proof fn law_directories_have_listings(&self, dir: Seq<char>)
        requires
            self.wf(),
        ensures
            self@.nodes.dom().finite(),
            is_listing(self@.nodes, dir, listing(self@.nodes, dir)),
    {
        lemma_node_map_finite(self.nodes@);
        law_listing_exists(self@.nodes, dir);
    }

    /// Create an empty filesystem with just the root directory.
    ///
    /// Descriptors 0, 1 and 2 are reserved. Nothing is preopened.
    pub fn new() -> (r: Self)
        ensures
            r.wf(),
            r@.nodes == Map::<Seq<char>, NodeView>::empty().insert(seq!['/'], NodeView::Dir),
            r@.fds == seq![None::<FdView>, None, None],
            r@.host_fds == Set::<i32>::empty(),
            r@.next_ino == 1,
    {
        let mut nodes: Vec<NodeEntry> = Vec::new();
        let root = root_path();
        proof {
            assert(node_map(nodes@) =~= Map::<Seq<char>, NodeView>::empty());
            lemma_node_map_push(nodes@, NodeEntry { path: root, node: FsNode::Dir });
        }
        nodes.push(NodeEntry { path: root, node: FsNode::Dir });
        let mut fds: Vec<Option<FdEntry>> = Vec::new();
        fds.push(None);
        fds.push(None);
        fds.push(None);
        let r = InMemFs { nodes, fds, host_fds: HashSet::new(), next_ino: 1 };
        proof {
            let none = Seq::<Seq<char>>::empty();
            assert(plain_names(none));
            assert(render(none) =~= seq!['/']);
            assert(is_canonical(seq!['/']));
        }
        assert(r@.fds =~= seq![None::<FdView>, None, None]);
        assert(r@.host_fds =~= Set::<i32>::empty());
        r
    }

    /// Create a filesystem with `/` preopened at descriptor 3, where WASI guests
    /// look for it. The next file opened gets descriptor 4.
    pub fn new_with_root_preopen() -> (r: Self)
        ensures
            r.wf(),
            r@.nodes == Map::<Seq<char>, NodeView>::empty().insert(seq!['/'], NodeView::Dir),
            r@.fds == seq![
                None,
                None,
                None,
                Some(FdView { path: seq!['/'], offset: 0, dir_cursor: 0 }),
            ],
            r@.host_fds == Set::<i32>::empty(),
            r@.next_ino == 1,
    {
        let mut r = InMemFs::new();
        assert(r.fds@.len() == r@.fds.len());
        assert(r.fds@.len() == 3);
        r.fds.push(Some(FdEntry { path: root_path(), offset: 0, dir_cursor: 0 }));
        assert(r@.fds =~= seq![
            None,
            None,
            None,
            Some(FdView { path: seq!['/'], offset: 0, dir_cursor: 0 }),
        ]);
        r
    }
}

impl Default for InMemFs {
    fn default() -> (r: Self)
        ensures
            r.wf(),
            r@.nodes == Map::<Seq<char>, NodeView>::empty().insert(seq!['/'], NodeView::Dir),
            r@.fds == seq![None::<FdView>, None, None],
            r@.host_fds == Set::<i32>::empty(),
            r@.next_ino == 1,
    {
        InMemFs::new()
    }
}

/// The path `/`.
fn root_path() -> (r: String)
    ensures
        r@ == seq!['/'],
{
    let cs = vec!['/'];
    assert(cs@ =~= seq!['/']);
    string_of(&cs)
}

/// The path that `path` denotes when taken relative to `base`.
pub open spec fn resolved(base: Seq<char>, path: Seq<char>) -> Seq<char> {
    if path.len() > 0 && path[0] == '/' {
        canonical(path)
    } else {
        canonical(base.push('/') + path)
    }
}

/// `x` held within the range of `i64`.
pub open spec fn clamp_i64(x: int) -> i64 {
    if x < i64::MIN {
        i64::MIN
    } else if x > i64::MAX {
        i64::MAX
    } else {
        x as i64
    }
}

/// Where a seek from `cur` in a file of `len` bytes lands. `None` for an
/// unknown `whence`.
pub open spec fn seek_target(cur: u64, len: u64, offset: i64, whence: i32) -> Option<i64> {
    if whence == 0 {
        Some(offset)
    } else if whence == 1 {
        Some(clamp_i64(cur as i64 + offset))
    } else if whence == 2 {
        Some(clamp_i64(len as i64 + offset))
    } else {
        None
    }
}

/// `p` is the path of one of the first `k` nodes on the way from the root to
/// `parts`.
spec fn on_the_way_until(p: Seq<char>, parts: Seq<Seq<char>>, k: int) -> bool {
    exists|j: int| 0 <= j < k && p == render(#[trigger] parts.take(j))
}

spec fn with_dirs_until(
    nodes: Map<Seq<char>, NodeView>,
    parts: Seq<Seq<char>>,
    k: int,
) -> Map<Seq<char>, NodeView> {
    Map::new(
        |p: Seq<char>| nodes.contains_key(p) || on_the_way_until(p, parts, k),
        |p: Seq<char>|
            if nodes.contains_key(p) {
                nodes[p]
            } else {
                NodeView::Dir
            },
    )
}

proof fn lemma_with_dirs_step(
    nodes: Map<Seq<char>, NodeView>,
    parts: Seq<Seq<char>>,
    k: int,
)
    requires
        0 <= k,
    ensures
        ({
            let p = render(parts.take(k));
            let now = with_dirs_until(nodes, parts, k);
            with_dirs_until(nodes, parts, k + 1) == if now.contains_key(p) {
                now
            } else {
                now.insert(p, NodeView::Dir)
            }
        }),
{
    let p = render(parts.take(k));
    let now = with_dirs_until(nodes, parts, k);
    let next = with_dirs_until(nodes, parts, k + 1);
    let want = if now.contains_key(p) {
        now
    } else {
        now.insert(p, NodeView::Dir)
    };
    assert forall|q: Seq<char>| #[trigger] next.contains_key(q) == want.contains_key(q) by {
        if on_the_way_until(q, parts, k + 1) {
            let j = choose|j: int| 0 <= j < k + 1 && q == render(#[trigger] parts.take(j));
            if j < k {
                assert(on_the_way_until(q, parts, k));
            }
        }
        if on_the_way_until(q, parts, k) {
            let j = choose|j: int| 0 <= j < k && q == render(#[trigger] parts.take(j));
            assert(0 <= j < k + 1);
            assert(on_the_way_until(q, parts, k + 1));
        }
        assert(on_the_way_until(p, parts, k + 1));
    }
    assert(next =~= want);
}

fn sat_i64(a: i64, b: i64) -> (r: i64)
    ensures
        r == clamp_i64(a + b),
{
    match a.checked_add(b) {
        Some(v) => v,
        None => if b < 0 {
            i64::MIN
        } else {
            i64::MAX
        },
    }
}

impl InMemFs {
    /// Where the node at `path` stands in the table.
    fn find(&self, path: &str) -> (r: Option<usize>)
        requires
            self.wf(),
        ensures
            match r {
                Some(i) => {
                    &&& i < self.nodes@.len()
                    &&& self.nodes@[i as int].path@ == path@
                    &&& self@.nodes.contains_key(path@)
                    &&& self@.nodes[path@] == self.nodes@[i as int].node@
                },
                None => !self@.nodes.contains_key(path@),
            },
    {
        let key = path.to_owned();
        let n: usize = self.nodes.len();
        let mut i: usize = 0;
        while i < n
            invariant
                self.wf(),
                i <= n,
                n == self.nodes@.len(),
                key@ == path@,
                forall|k: int| 0 <= k < i ==> (#[trigger] self.nodes@[k]).path@ != path@,
            decreases n - i,
        {
            if self.nodes[i].path == key {
                proof {
                    lemma_node_map(self.nodes@, i as int);
                }
                return Some(i);
            }
            i = i + 1;
        }
        assert(!self@.nodes.contains_key(path@)) by {
            if self@.nodes.contains_key(path@) {
                let k = choose|k: int| stands_at(self.nodes@, path@, k);
                assert(self.nodes@[k].path@ == path@);
            }
        }
        None
    }

    /// Set the node at `path`; at the root, to a directory.
    fn put(&mut self, path: String, node: FsNode)
        requires
            old(self).wf(),
            is_canonical(path@),
            path@ == seq!['/'] ==> node is Dir,
        ensures
            final(self).wf(),
            final(self)@ == old(self)@.with_nodes(old(self)@.nodes.insert(path@, node@)),
    {
        let at = self.find(path.as_str());
        let e = NodeEntry { path, node };
        match at {
            Some(i) => {
                proof {
                    lemma_node_map_update(self.nodes@, i as int, e);
                }
                self.nodes.set(i, e);
            },
            None => {
                proof {
                    lemma_node_map_push(self.nodes@, e);
                }
                self.nodes.push(e);
            },
        }
    }

    /// The slot of the open descriptor `fd`.
    fn slot(&self, fd: i32) -> (r: Option<usize>)
        requires
            self.wf(),
        ensures
            r is Some <==> self@.fd(fd) is Some,
            r matches Some(i) ==> i == fd && i < self.fds@.len() && self.fds@[i as int] is Some
                && self@.fd(fd) == Some(self.fds@[i as int]->0@),
    {
        if fd < 0 || fd as usize >= self.fds.len() {
            return None;
        }
        let i: usize = fd as usize;
        if self.fds[i].is_some() {
            Some(i)
        } else {
            None
        }
    }

    /// Replace the open descriptor in slot `i`.
    fn set_slot(&mut self, i: usize, entry: FdEntry)
        requires
            old(self).wf(),
            3 <= i < old(self).fds@.len(),
            i <= i32::MAX,
        ensures
            final(self).wf(),
            final(self)@ == old(self)@.with_entry(i as i32, entry@),
    {
        self.fds.set(i, Some(entry));
        assert(self@.fds =~= old(self)@.fds.update(i as int, Some(entry@)));
    }

    /// Hand out the next inode number.
    fn alloc_ino(&mut self) -> (v: u64)
        requires
            old(self).wf(),
        ensures
            final(self).wf(),
            v == old(self)@.next_ino,
            final(self)@ == old(self)@.with_next_ino(),
    {
        let v: u64 = self.next_ino;
        self.next_ino = if v == u64::MAX {
            1
        } else {
            v + 1
        };
        v
    }

    /// The name of the preopened directory at `fd`: `/` if descriptor 3 is open
    /// on the root, `None` for any other descriptor.
    pub fn preopen_name(&self, fd: i32) -> (r: Option<&str>)
        requires
            self.wf(),
        ensures
            r is Some <==> fd == 3 && self@.fd(3) is Some && self@.fd(3)->0.path == seq!['/'],
            r matches Some(name) ==> name@ == seq!['/'],
    {
        if fd != 3 {
            return None;
        }
        match self.slot(fd) {
            None => None,
            Some(i) => match &self.fds[i] {
                None => None,
                Some(e) => {
                    let root = root_path();
                    if e.path == root {
                        proof {
                            reveal_strlit("/");
                            assert("/"@ =~= seq!['/']);
                        }
                        Some("/")
                    } else {
                        None
                    }
                },
            },
        }
    }

    /// Node metadata for WASI `path_filestat_get`. A found node takes a fresh
    /// inode number.
    pub fn node_info(&mut self, abs_path: &str) -> (r: Option<NodeInfo>)
        requires
            old(self).wf(),
        ensures
            final(self).wf(),
            r is Some <==> old(self)@.nodes.contains_key(abs_path@),
            r is None ==> final(self)@ == old(self)@,
            r matches Some(info) ==> {
                let node = old(self)@.nodes[abs_path@];
                &&& info.ino == old(self)@.next_ino
                &&& info.filetype == if node is Dir {
                    3u8
                } else {
                    4u8
                }
                &&& info.size == node_size(node)
                &&& final(self)@ == old(self)@.with_next_ino()
            },
    {
        match self.find(abs_path) {
            None => None,
            Some(i) => {
                let (filetype, size): (u8, u64) = match &self.nodes[i].node {
                    FsNode::Dir => (3, 0),
                    FsNode::File(data) => (4, data.len() as u64),
                };
                let ino: u64 = self.alloc_ino();
                Some(NodeInfo { ino, filetype, size })
            },
        }
    }

    /// Resolve `path` relative to the directory `base`. Returns the canonical
    /// absolute path.
    pub fn resolve(&self, base: &str, path: &str) -> (r: String)
        ensures
            r@ == resolved(base@, path@),
    {
        let cs = chars_of(path);
        if cs.len() > 0 && cs[0] == '/' {
            canonicalize(path)
        } else {
            proof {
                reveal_strlit("/");
                assert(base@ + "/"@ =~= base@.push('/'));
            }
            let dir = concat(base, "/");
            let joined = concat(dir.as_str(), path);
            canonicalize(joined.as_str())
        }
    }

    /// Ensure a directory at `abs_path` exists (creates all intermediate dirs).
    /// Nodes that exist already are left alone.
    pub fn mkdir_p(&mut self, abs_path: &str)
        requires
            old(self).wf(),
        ensures
            final(self).wf(),
            final(self)@ == old(self)@.with_nodes(
                with_dirs(old(self)@.nodes, names(abs_path@)),
            ),
    {
        let parts = names_of(abs_path);
        let n: usize = parts.len();
        let ghost all = texts(parts@);
        let ghost nodes0 = self@.nodes;
        let mut walked: Vec<Vec<char>> = Vec::new();
        let mut k: usize = 0;
        proof {
            law_canonical_is_canonical(abs_path@);
        }
        assert(texts(walked@) =~= all.take(0));
        assert(with_dirs_until(nodes0, all, 0) =~= nodes0);
        loop
            invariant_except_break
                self.wf(),
                k <= n,
                n == parts@.len(),
                all == texts(parts@),
                plain_names(all),
                nodes0 == old(self)@.nodes,
                texts(walked@) == all.take(k as int),
                self@ == old(self)@.with_nodes(with_dirs_until(nodes0, all, k as int)),
            ensures
                self.wf(),
                self@ == old(self)@.with_nodes(with_dirs_until(nodes0, all, n + 1)),
            decreases n - k,
        {
            let cs = render_path(&walked);
            let path = string_of(&cs);
            proof {
                lemma_with_dirs_step(nodes0, all, k as int);
                let front = all.take(k as int);
                assert forall|i: int| 0 <= i < front.len() implies plain_name(
                    #[trigger] front[i],
                ) by {
                    assert(plain_name(all[i]));
                }
                assert(plain_names(front));
                assert(is_canonical(path@));
            }
            if self.find(path.as_str()).is_none() {
                self.put(path, FsNode::Dir);
            }
            assert(self@.nodes == with_dirs_until(nodes0, all, k + 1));
            if k == n {
                break;
            }
            let name = parts[k].clone();
            assert(name@ =~= parts@[k as int]@);
            walked.push(name);
            k = k + 1;
            assert(texts(walked@) =~= all.take(k as int));
        }
        proof {
            let want = with_dirs(nodes0, all);
            let got = with_dirs_until(nodes0, all, n + 1);
            assert forall|p: Seq<char>| #[trigger]
                on_the_way(p, all) == on_the_way_until(p, all, n + 1) by {
                if on_the_way(p, all) {
                    let j = choose|j: int| 0 <= j <= all.len() && p == render(#[trigger] all.take(j));
                    assert(0 <= j < n + 1);
                }
                if on_the_way_until(p, all, n + 1) {
                    let j = choose|j: int| 0 <= j < n + 1 && p == render(#[trigger] all.take(j));
                    assert(0 <= j <= all.len());
                }
            }
            assert(got =~= want);
        }
    }

    /// Insert a file at `abs_path` with `contents`, replacing what is there.
    /// Creates parent dirs. Nothing happens at the root, which stays a directory.
    pub fn insert_file(&mut self, abs_path: &str, contents: Vec<u8>)
        requires
            old(self).wf(),
        ensures
            final(self).wf(),
            final(self)@ == old(self)@.with_nodes(
                with_file_at(old(self)@.nodes, canonical(abs_path@), contents@),
            ),
            canonical(abs_path@) == seq!['/'] ==> final(self)@ == old(self)@,
    {
        let path = canonicalize(abs_path);
        assert(self@.with_nodes(self@.nodes) == self@);
        if path == root_path() {
            return ;
        }
        proof {
            law_canonical_is_canonical(abs_path@);
        }
        match parent_of(path.as_str()) {
            Some(dir) => {
                self.mkdir_p(dir.as_str());
            },
            None => {},
        }
        self.put(path, FsNode::File(contents));
    }

    /// Look up a node by its absolute canonical path.
    pub fn get(&self, abs_path: &str) -> (r: Option<&FsNode>)
        requires
            self.wf(),
        ensures
            r is Some <==> self@.nodes.contains_key(abs_path@),
            r matches Some(node) ==> node@ == self@.nodes[abs_path@],
    {
        match self.find(abs_path) {
            None => None,
            Some(i) => Some(&self.nodes[i].node),
        }
    }

    /// Open `path`.
    ///
    /// Supports `O_CREAT` (create if absent, under the path's canonical form and with
    /// its parent directories), `O_TRUNC` (truncate on opening for writing) and
    /// `O_WRONLY` / `O_RDWR`.
    ///
    /// Returns the descriptor, `ENOENT` if the node is absent and not to be
    /// created, or `EISDIR` if a directory is to be written.
    pub fn open(&mut self, path: String, flags: i32) -> (r: i32)
        requires
            old(self).wf(),
        ensures
            final(self).wf(),
            r == old(self)@.opened(path@, flags).1,
            final(self)@ == old(self)@.opened(path@, flags).0,
    {
        if self.find(path.as_str()).is_some() {
            return self.open_at(path, flags);
        }
        if flags & O_CREAT == 0 {
            return ENOENT;
        }
        let created = canonicalize(path.as_str());
        proof {
            law_canonical_is_canonical(path@);
        }
        self.open_at(created, flags)
    }

    /// Open the node at `path`, which is created if it is missing.
    fn open_at(&mut self, path: String, flags: i32) -> (r: i32)
        requires
            old(self).wf(),
            is_canonical(path@),
        ensures
            final(self).wf(),
            r == old(self)@.opened_at(path@, flags).1,
            final(self)@ == old(self)@.opened_at(path@, flags).0,
    {
        let want_write = flags & O_WRONLY != 0 || flags & O_RDWR != 0;
        let trunc = flags & O_TRUNC != 0;
        match self.find(path.as_str()) {
            None => {
                match parent_of(path.as_str()) {
                    Some(dir) => {
                        self.mkdir_p(dir.as_str());
                    },
                    None => {},
                }
                let empty: Vec<u8> = Vec::new();
                assert(empty@ =~= Seq::<u8>::empty());
                self.put(path.clone(), FsNode::File(empty));
            },
            Some(i) => {
                let is_dir = match &self.nodes[i].node {
                    FsNode::Dir => true,
                    FsNode::File(_) => false,
                };
                if is_dir {
                    if want_write {
                        return EISDIR;
                    }
                } else if trunc && want_write {
                    let empty: Vec<u8> = Vec::new();
                    assert(empty@ =~= Seq::<u8>::empty());
                    self.put(path.clone(), FsNode::File(empty));
                }
                assert(self@.with_nodes(self@.nodes) == self@);
            },
        }
        proof {
            lemma_free_from_nodes(old(self)@, self@, 3);
        }
        self.alloc_fd(path)
    }

    /// Take the first reusable descriptor for `path`, or a new one at the end of
    /// the table.
    fn alloc_fd(&mut self, path: String) -> (r: i32)
        requires
            old(self).wf(),
        ensures
            final(self).wf(),
            r == old(self)@.next_fd() as i32,
            final(self)@ == old(self)@.with_fd(path@),
    {
        let entry = FdEntry { path, offset: 0, dir_cursor: 0 };
        let ghost fs = self@;
        let n: usize = self.fds.len();
        let mut i: usize = 3;
        while i < n
            invariant
                self.wf(),
                self@ == fs,
                fs == old(self)@,
                entry@ == (FdView { path: path@, offset: 0, dir_cursor: 0 }),
                3 <= i <= n,
                n == self.fds@.len(),
                fs.next_fd() == fs.free_from(i as int),
            decreases n - i,
        {
            if self.fds[i].is_none() && !self.host_fds.contains(&(i as i32)) {
                assert(fs.free_slot(i as int));
                self.fds.set(i, Some(entry));
                assert(self@.fds =~= fs.fds.update(i as int, Some(entry@)));
                assert(self@ =~= fs.with_fd(entry@.path));
                return i as i32;
            }
            assert(!fs.free_slot(i as int));
            i = i + 1;
        }
        self.fds.push(Some(entry));
        assert(self@.fds =~= fs.fds.push(Some(entry@)));
        assert(self@ =~= fs.with_fd(entry@.path));
        n as i32
    }
}

/// The next descriptor depends on the descriptor table alone.
proof fn lemma_free_from_nodes(a: FsView, b: FsView, i: int)
    requires
        a.fds == b.fds,
        a.host_fds == b.host_fds,
    ensures
        a.free_from(i) == b.free_from(i),
    decreases a.fds.len() - i,
{
    if i < a.fds.len() {
        lemma_free_from_nodes(a, b, i + 1);
    }
}

impl FsView {
    /// The size of what `fd` refers to: 0 unless it is a regular file.
    pub open spec fn fd_size(self, fd: i32) -> nat {
        match self.fd_file(fd) {
            Ok(data) => data.len(),
            Err(_) => 0,
        }
    }

    /// The state after the file that `fd` refers to got other contents.
    pub open spec fn with_file(self, fd: i32, data: Seq<u8>) -> FsView {
        self.with_nodes(self.nodes.insert(self.fd(fd)->0.path, NodeView::File(data)))
    }

    /// The `struct stat` of the node at `p`, with the next inode number.
    pub open spec fn stat_of(self, p: Seq<char>) -> Seq<u8> {
        stat_record(
            self.next_ino as nat,
            node_mode(self.nodes[p]) as nat,
            node_size(self.nodes[p]),
        )
    }

    /// Reading up to `room` bytes from where `fd` stands: the state afterwards, and
    /// the bytes or the errno.
    pub open spec fn read_on(self, fd: i32, room: int) -> (FsView, Result<Seq<u8>, i32>) {
        match self.fd_file(fd) {
            Err(e) => (self, Err(e)),
            Ok(data) => {
                let at = self.fd(fd)->0.offset;
                (
                    self.with_offset(fd, (at + read_len(data, at, room)) as u64),
                    Ok(read_slice(data, at, room)),
                )
            },
        }
    }

    /// Reading up to `room` bytes at `offset` of the file that `fd` refers to: the bytes or
    /// the errno.
    pub open spec fn read_from(self, fd: i32, offset: u64, room: int) -> Result<Seq<u8>, i32> {
        match self.fd_file(fd) {
            Err(e) => Err(e),
            Ok(data) => Ok(read_slice(data, offset, room)),
        }
    }

    /// Writing `data` to the file that `fd` refers to: the state afterwards, and the
    /// length written or the errno.
    pub open spec fn appended(self, fd: i32, data: Seq<u8>) -> (FsView, i32) {
        match self.fd_file(fd) {
            Err(e) => (self, e),
            Ok(file) => (
                self.with_file(fd, file + data).with_offset(
                    fd,
                    self.fd(fd)->0.offset.wrapping_add(data.len() as u64),
                ),
                data.len() as i32,
            ),
        }
    }

    /// Writing `src` at `offset` of the file that `fd` refers to: the state afterwards,
    /// and the length written or the errno.
    pub open spec fn patched(self, fd: i32, src: Seq<u8>, offset: u64) -> (FsView, i32) {
        match self.fd_file(fd) {
            Err(e) => (self, e),
            Ok(data) => (
                self.with_file(fd, written_at(data, src, offset as int)),
                src.len() as i32,
            ),
        }
    }

    /// The state after `count` more entries were read through the directory descriptor
    /// `fd`.
    pub open spec fn advanced(self, fd: i32, count: usize) -> FsView {
        match self.fd(fd) {
            Some(e) if !self.is_file_fd(fd) => self.with_entry(
                fd,
                FdView { dir_cursor: e.dir_cursor.wrapping_add(count), ..e },
            ),
            _ => self,
        }
    }

    /// Moving `fd`: the state afterwards, and the new place or the errno.
    pub open spec fn sought(self, fd: i32, offset: i64, whence: i32) -> (FsView, i64) {
        match self.fd(fd) {
            None => (self, EBADF as i64),
            Some(e) => match seek_target(e.offset, self.fd_size(fd) as u64, offset, whence) {
                Some(t) if t >= 0 => (self.with_offset(fd, t as u64), t),
                _ => (self, EINVAL as i64),
            },
        }
    }

    /// Closing `fd`: the state afterwards, and 0 or the errno.
    pub open spec fn closed(self, fd: i32) -> (FsView, i32) {
        if self.closable(fd) {
            (self.without_fd(fd), 0i32)
        } else {
            (self, EBADF)
        }
    }

    /// Closing `fd` along with all descriptors: the state afterwards, and 0 or the
    /// errno. A host file survives it, unless its path ends with `-journal`.
    pub open spec fn bulk_closed(self, fd: i32) -> (FsView, i32) {
        if !self.closable(fd) {
            (self, EBADF)
        } else if self.host_fds.contains(fd) && !ends_with(self.fd(fd)->0.path, "-journal"@) {
            (self, 0i32)
        } else {
            (self.without_fd(fd), 0i32)
        }
    }
}

impl InMemFs {
    /// The path and position of the open descriptor `fd`.
    fn entry(&self, fd: i32) -> (r: Option<&FdEntry>)
        requires
            self.wf(),
        ensures
            r is Some <==> self@.fd(fd) is Some,
            r matches Some(e) ==> self@.fd(fd) == Some(e@) && 3 <= fd < self.fds@.len(),
    {
        match self.slot(fd) {
            None => None,
            Some(i) => match &self.fds[i] {
                None => None,
                Some(e) => Some(e),
            },
        }
    }

    /// Where the regular file that `fd` refers to stands in the node table, or
    /// the error that reading it gives.
    fn file_index(&self, fd: i32) -> (r: Result<usize, i32>)
        requires
            self.wf(),
        ensures
            match r {
                Ok(i) => {
                    &&& self@.fd_file(fd) is Ok
                    &&& i < self.nodes@.len()
                    &&& self@.fd(fd) is Some
                    &&& self.nodes@[i as int].path@ == self@.fd(fd)->0.path
                    &&& self.nodes@[i as int].node is File
                    &&& self.nodes@[i as int].node@ == NodeView::File(self@.fd_file(fd)->Ok_0)
                    &&& 3 <= fd < self.fds@.len()
                },
                Err(e) => self@.fd_file(fd) == Err::<Seq<u8>, i32>(e),
            },
    {
        match self.entry(fd) {
            None => Err(EBADF),
            Some(e) => match self.find(e.path.as_str()) {
                None => Err(ENOENT),
                Some(i) => match &self.nodes[i].node {
                    FsNode::Dir => Err(EISDIR),
                    FsNode::File(_) => Ok(i),
                },
            },
        }
    }

    /// Move the open descriptor `fd` to byte `offset`.
    pub(crate) fn set_offset(&mut self, fd: i32, offset: u64)
        requires
            old(self).wf(),
            old(self)@.fd(fd) is Some,
        ensures
            final(self).wf(),
            final(self)@ == old(self)@.with_offset(fd, offset),
    {
        let e = match self.entry(fd) {
            None => {
                return ;
            },
            Some(e) => FdEntry {
                path: e.path.clone(),
                offset,
                dir_cursor: e.dir_cursor,
            },
        };
        self.set_slot(fd as usize, e);
    }

    /// Read up to `dst.len()` bytes from `fd` at its position into `dst`, and
    /// advance the position by what was read. Returns bytes read, or a negative
    /// errno.
    pub fn read(&mut self, fd: i32, dst: &mut [u8]) -> (r: i32)
        requires
            old(self).wf(),
        ensures
            final(self).wf(),
            ({
                let (after, got) = old(self)@.read_on(fd, old(dst)@.len() as int);
                &&& final(self)@ == after
                &&& match got {
                    Err(e) => r == e && final(dst)@ == old(dst)@,
                    Ok(bytes) => r == bytes.len() as i32 && final(dst)@ == splice(
                        old(dst)@,
                        0,
                        bytes,
                    ),
                }
            }),
    {
        let at: u64 = match self.entry(fd) {
            None => {
                return EBADF;
            },
            Some(e) => e.offset,
        };
        match self.read_into(fd, dst, at) {
            Err(e) => e,
            Ok(n) => {
                assert(at + n <= u64::MAX);
                self.set_offset(fd, at + n as u64);
                n as i32
            },
        }
    }

    /// Copy the bytes at `offset` of the file that `fd` refers to into `dst`.
    pub(crate) fn read_into(&self, fd: i32, dst: &mut [u8], offset: u64) -> (r: Result<usize, i32>)
        requires
            self.wf(),
        ensures
            match self@.fd_file(fd) {
                Err(e) => r == Err::<usize, i32>(e) && final(dst)@ == old(dst)@,
                Ok(data) => {
                    &&& r is Ok
                    &&& r->Ok_0 == read_len(data, offset, old(dst)@.len() as int)
                    &&& final(dst)@ == splice(
                        old(dst)@,
                        0,
                        read_slice(data, offset, old(dst)@.len() as int),
                    )
                    &&& r->Ok_0 > 0 ==> offset < data.len()
                    &&& data.len() <= usize::MAX
                },
            },
    {
        match self.file_index(fd) {
            Err(e) => Err(e),
            Ok(i) => match &self.nodes[i].node {
                FsNode::Dir => Err(EISDIR),
                FsNode::File(data) => {
                    let start: usize = if offset < data.len() as u64 {
                        offset as usize
                    } else {
                        data.len()
                    };
                    let available: usize = data.len() - start;
                    let n: usize = if dst.len() < available {
                        dst.len()
                    } else {
                        available
                    };
                    write_at(dst, 0, &data[start..start + n]);
                    Ok(n)
                },
            },
        }
    }

    /// Read up to `dst.len()` bytes at `offset` from `fd` into `dst`, WITHOUT
    /// moving the descriptor. Returns bytes read, or a negative errno.
    pub fn pread(&mut self, fd: i32, dst: &mut [u8], offset: u64) -> (r: i32)
        requires
            old(self).wf(),
        ensures
            final(self).wf(),
            final(self)@ == old(self)@,
            match old(self)@.read_from(fd, offset, old(dst)@.len() as int) {
                Err(e) => r == e && final(dst)@ == old(dst)@,
                Ok(bytes) => r == bytes.len() as i32 && final(dst)@ == splice(
                    old(dst)@,
                    0,
                    bytes,
                ),
            },
    {
        match self.read_into(fd, dst, offset) {
            Err(e) => e,
            Ok(n) => n as i32,
        }
    }

    /// Append `data` to the file referenced by `fd` and advance the position.
    /// Returns bytes written, or a negative errno.
    pub fn write(&mut self, fd: i32, data: &[u8]) -> (r: i32)
        requires
            old(self).wf(),
        ensures
            final(self).wf(),
            (final(self)@, r) == old(self)@.appended(fd, data@),
    {
        match self.file_index(fd) {
            Err(e) => e,
            Ok(i) => {
                self.append_at(i, data);
                let at: u64 = match self.entry(fd) {
                    None => 0,
                    Some(e) => e.offset,
                };
                self.set_offset(fd, at.wrapping_add(data.len() as u64));
                data.len() as i32
            },
        }
    }

    /// Append `data` to the file in entry `i` of the node table.
    fn append_at(&mut self, i: usize, data: &[u8])
        requires
            old(self).wf(),
            i < old(self).nodes@.len(),
            old(self).nodes@[i as int].node is File,
        ensures
            final(self).wf(),
            final(self).fds == old(self).fds,
            final(self)@ == old(self)@.with_nodes(
                old(self)@.nodes.insert(
                    old(self).nodes@[i as int].path@,
                    NodeView::File(old(self).nodes@[i as int].node->File_0@ + data@),
                ),
            ),
    {
        let ghost before = self.nodes@;
        match &mut self.nodes[i].node {
            FsNode::Dir => {},
            FsNode::File(buf) => {
                buf.extend_from_slice(data);
            },
        }
        proof {
            let e = self.nodes@[i as int];
            assert(self.nodes@ =~= before.update(i as int, e));
            assert(e.node->File_0@ =~= before[i as int].node->File_0@ + data@);
            lemma_node_map(before, i as int);
            lemma_node_map_update(before, i as int, e);
        }
    }
}

impl InMemFs {
    /// Write `src` at `offset` into the file referenced by `fd`, WITHOUT moving
    /// the descriptor. Extends the file with zero fill if `offset` is past its
    /// end. Returns bytes written, or a negative errno.
    pub fn pwrite(&mut self, fd: i32, src: &[u8], offset: u64) -> (r: i32)
        requires
            old(self).wf(),
            offset + src@.len() <= usize::MAX,
        ensures
            final(self).wf(),
            (final(self)@, r) == old(self)@.patched(fd, src@, offset),
    {
        match self.file_index(fd) {
            Err(e) => e,
            Ok(i) => {
                let ghost before = self.nodes@;
                let start: usize = offset as usize;
                let end: usize = start + src.len();
                match &mut self.nodes[i].node {
                    FsNode::Dir => {},
                    FsNode::File(data) => {
                        if end > data.len() {
                            data.resize(end, 0);
                        }
                        write_at(data.as_mut_slice(), start, src);
                    },
                }
                proof {
                    let e = self.nodes@[i as int];
                    let data = before[i as int].node->File_0@;
                    assert(self.nodes@ =~= before.update(i as int, e));
                    assert(e.node->File_0@ =~= written_at(data, src@, offset as int));
                    lemma_node_map_update(before, i as int, e);
                }
                src.len() as i32
            },
        }
    }

    /// Return the contents of the file at `abs_path`, or `None` if absent or a
    /// directory.
    pub fn read_file(&self, abs_path: &str) -> (r: Option<&[u8]>)
        requires
            self.wf(),
        ensures
            r is Some <==> self@.nodes.contains_key(abs_path@) && self@.nodes[abs_path@] is File,
            r matches Some(data) ==> self@.nodes[abs_path@] == NodeView::File(data@),
    {
        match self.find(abs_path) {
            None => None,
            Some(i) => match &self.nodes[i].node {
                FsNode::Dir => None,
                FsNode::File(data) => Some(data.as_slice()),
            },
        }
    }

    /// Seek the descriptor. whence: 0=SEEK_SET, 1=SEEK_CUR, 2=SEEK_END.
    /// Returns the new offset, `EBADF`, or `EINVAL` for an unknown whence or a
    /// target before the start.
    pub fn lseek(&mut self, fd: i32, offset: i64, whence: i32) -> (r: i64)
        requires
            old(self).wf(),
        ensures
            final(self).wf(),
            (final(self)@, r) == old(self)@.sought(fd, offset, whence),
    {
        let cur: u64 = match self.entry(fd) {
            None => {
                return EBADF as i64;
            },
            Some(e) => e.offset,
        };
        let file_len: u64 = match self.file_index(fd) {
            Err(_) => 0,
            Ok(i) => match &self.nodes[i].node {
                FsNode::Dir => 0,
                FsNode::File(data) => data.len() as u64,
            },
        };
        let target: i64 = if whence == 0 {
            offset
        } else if whence == 1 {
            sat_i64(cur as i64, offset)
        } else if whence == 2 {
            sat_i64(file_len as i64, offset)
        } else {
            return EINVAL as i64;
        };
        if target < 0 {
            return EINVAL as i64;
        }
        self.set_offset(fd, target as u64);
        target
    }

    /// Release the closable descriptor `fd`.
    fn release(&mut self, fd: i32)
        requires
            old(self).wf(),
            old(self)@.closable(fd),
        ensures
            final(self).wf(),
            final(self)@ == old(self)@.without_fd(fd),
    {
        self.fds.set(fd as usize, None);
        self.host_fds.remove(&fd);
        assert(self@.fds =~= old(self)@.fds.update(fd as int, None));
        assert(self@.host_fds =~= old(self)@.host_fds.remove(fd));
    }

    /// Close a file descriptor. Returns 0 or `EBADF`.
    pub fn close(&mut self, fd: i32) -> (r: i32)
        requires
            old(self).wf(),
        ensures
            final(self).wf(),
            (final(self)@, r) == old(self)@.closed(fd),
    {
        if !self.is_fs_fd(fd) {
            return EBADF;
        }
        self.release(fd);
        0
    }

    /// Close for the WASI `fd_close` import, which Python issues in bulk over all
    /// descriptors. A host-backed descriptor survives it, unless its path ends
    /// with `-journal` (SQLite closes its journal explicitly at commit). Returns
    /// 0 or `EBADF`.
    pub fn wasi_close(&mut self, fd: i32) -> (r: i32)
        requires
            old(self).wf(),
        ensures
            final(self).wf(),
            (final(self)@, r) == old(self)@.bulk_closed(fd),
    {
        if !self.is_fs_fd(fd) {
            return EBADF;
        }
        if self.host_fds.contains(&fd) {
            let is_journal = match self.entry(fd) {
                None => false,
                Some(e) => has_suffix(&chars_of(e.path.as_str()), &chars_of("-journal")),
            };
            if !is_journal {
                return 0;
            }
        }
        self.release(fd);
        0
    }

    /// Remove a node. Returns 0, `ENOENT`, or `EISDIR` for the root, which cannot
    /// be removed.
    pub fn unlink(&mut self, abs_path: &str) -> (r: i32)
        requires
            old(self).wf(),
        ensures
            final(self).wf(),
            r == old(self)@.unlinked(abs_path@).1,
            final(self)@ == old(self)@.unlinked(abs_path@).0,
    {
        let path = abs_path.to_owned();
        if path == root_path() {
            return EISDIR;
        }
        match self.find(abs_path) {
            None => ENOENT,
            Some(i) => {
                proof {
                    lemma_node_map_remove(self.nodes@, i as int);
                }
                self.nodes.swap_remove(i);
                0
            },
        }
    }

    /// Mode and size of the node at `abs_path`, or `None` if not found.
    pub fn stat_mode_size(&self, abs_path: &str) -> (r: Option<(u32, u64)>)
        requires
            self.wf(),
        ensures
            r is Some <==> self@.nodes.contains_key(abs_path@),
            r matches Some((mode, size)) ==> mode == node_mode(self@.nodes[abs_path@]) && size
                == node_size(self@.nodes[abs_path@]),
    {
        match self.find(abs_path) {
            None => None,
            Some(i) => match &self.nodes[i].node {
                FsNode::Dir => Some((MODE_DIR, 0)),
                FsNode::File(data) => Some((MODE_FILE, data.len() as u64)),
            },
        }
    }

    /// Fill an Emscripten stat buffer for the node at `abs_path`: exactly the
    /// first `EM_STAT_STRUCT_BYTES` bytes of `buf`. A found node takes a fresh
    /// inode number. Returns 0 or `ENOENT`.
    pub fn stat_into(&mut self, abs_path: &str, buf: &mut [u8]) -> (r: i32)
        requires
            old(self).wf(),
            old(buf)@.len() >= EM_STAT_STRUCT_BYTES,
        ensures
            final(self).wf(),
            if old(self)@.nodes.contains_key(abs_path@) {
                &&& r == 0
                &&& final(self)@ == old(self)@.with_next_ino()
                &&& final(buf)@ == splice(old(buf)@, 0, old(self)@.stat_of(abs_path@))
            } else {
                r == ENOENT && final(self)@ == old(self)@ && final(buf)@ == old(buf)@
            },
    {
        match self.stat_mode_size(abs_path) {
            None => ENOENT,
            Some((mode, size)) => {
                let ino: u64 = self.alloc_ino();
                write_stat_buf(buf, ino, mode, size);
                0
            },
        }
    }

    /// Fill a stat buffer for the node referenced by `fd`. Returns 0, `EBADF`
    /// or `ENOENT`.
    pub fn fstat_into(&mut self, fd: i32, buf: &mut [u8]) -> (r: i32)
        requires
            old(self).wf(),
            old(buf)@.len() >= EM_STAT_STRUCT_BYTES,
        ensures
            final(self).wf(),
            match old(self)@.fd(fd) {
                None => r == EBADF && final(self)@ == old(self)@ && final(buf)@ == old(buf)@,
                Some(e) => if old(self)@.nodes.contains_key(e.path) {
                    &&& r == 0
                    &&& final(self)@ == old(self)@.with_next_ino()
                    &&& final(buf)@ == splice(old(buf)@, 0, old(self)@.stat_of(e.path))
                } else {
                    r == ENOENT && final(self)@ == old(self)@ && final(buf)@ == old(buf)@
                },
            },
    {
        let path = match self.entry(fd) {
            None => {
                return EBADF;
            },
            Some(e) => e.path.clone(),
        };
        self.stat_into(path.as_str(), buf)
    }

    /// Check whether `abs_path` exists.
    pub fn has_path(&self, abs_path: &str) -> (r: bool)
        requires
            self.wf(),
        ensures
            r == self@.nodes.contains_key(abs_path@),
    {
        self.find(abs_path).is_some()
    }

    /// The path of the open descriptor `fd`.
    pub fn fd_path(&self, fd: i32) -> (r: Option<&str>)
        requires
            self.wf(),
        ensures
            r is Some <==> self@.fd(fd) is Some,
            r matches Some(p) ==> p@ == self@.fd(fd)->0.path,
    {
        match self.entry(fd) {
            None => None,
            Some(e) => Some(e.path.as_str()),
        }
    }

    /// The byte that the open descriptor `fd` stands at.
    pub fn offset_of(&self, fd: i32) -> (r: Option<u64>)
        requires
            self.wf(),
        ensures
            r is Some <==> self@.closable(fd),
            r is Some <==> self@.fd(fd) is Some,
            r matches Some(at) ==> at == self@.fd(fd)->0.offset,
    {
        match self.entry(fd) {
            None => None,
            Some(e) => Some(e.offset),
        }
    }

    /// How many directory entries have been read through `fd`; 0 if it is not open,
    /// or open on a file.
    pub fn fd_dir_cursor(&self, fd: i32) -> (r: usize)
        requires
            self.wf(),
        ensures
            r == self@.dir_position(fd),
    {
        let at: usize = match self.entry(fd) {
            None => {
                return 0;
            },
            Some(e) => e.dir_cursor,
        };
        if self.host_fds.contains(&fd) || self.file_index(fd).is_ok() {
            0
        } else {
            at
        }
    }

    /// Advance the directory position of `fd` by `count` entries. Nothing
    /// happens if it is not open on a directory.
    pub fn advance_fd_dir_cursor(&mut self, fd: i32, count: usize)
        requires
            old(self).wf(),
        ensures
            final(self).wf(),
            final(self)@ == old(self)@.advanced(fd, count),
    {
        if self.host_fds.contains(&fd) || self.file_index(fd).is_ok() {
            return ;
        }
        let e = match self.entry(fd) {
            None => {
                return ;
            },
            Some(e) => FdEntry {
                path: e.path.clone(),
                offset: e.offset,
                dir_cursor: e.dir_cursor.wrapping_add(count),
            },
        };
        self.set_slot(fd as usize, e);
    }

    /// Whether `fd` is an open descriptor of this filesystem (0, 1 and 2 never
    /// are).
    pub fn is_fs_fd(&self, fd: i32) -> (r: bool)
        requires
            self.wf(),
        ensures
            r == self@.closable(fd),
            r == (self@.fd(fd) is Some),
    {
        self.slot(fd).is_some()
    }

    /// Whether `fd` is a host-backed descriptor.
    pub fn is_host_fd(&self, fd: i32) -> (r: bool)
        ensures
            r == self@.host_fds.contains(fd),
    {
        self.host_fds.contains(&fd)
    }
}

/// The first inode number that directory records carry.
pub const DIRENT_INO_BASE: u64 = 100;

/// Whether the characters hold a slash.
fn has_slash(cs: &[char]) -> (r: bool)
    ensures
        r == cs@.contains('/'),
{
    let n: usize = cs.len();
    let mut i: usize = 0;
    while i < n
        invariant
            i <= n,
            n == cs@.len(),
            forall|k: int| 0 <= k < i ==> cs@[k] != '/',
        decreases n - i,
    {
        if cs[i] == '/' {
            return true;
        }
        i = i + 1;
    }
    false
}

/// A `.` or `..` entry.
fn dot_entry(n: usize) -> (r: (String, bool))
    ensures
        r.0@ == Seq::new(n as nat, |i: int| '.'),
        r.1,
{
    let mut cs: Vec<char> = Vec::new();
    cs.resize(n, '.');
    assert(cs@ =~= Seq::new(n as nat, |i: int| '.'));
    (string_of(&cs), true)
}

/// A listing with `.` and `..` put in front.
pub fn add_dots(children: Vec<(String, bool)>) -> (r: Vec<(String, bool)>)
    ensures
        entry_views(r@) == with_dots(entry_views(children@)),
        r@.len() == children@.len() + 2,
{
    let mut r: Vec<(String, bool)> = Vec::new();
    r.push(dot_entry(1));
    r.push(dot_entry(2));
    let mut rest = children;
    r.append(&mut rest);
    proof {
        assert(Seq::new(1, |i: int| '.') =~= seq!['.']);
        assert(Seq::new(2, |i: int| '.') =~= seq!['.', '.']);
        let got = entry_views(r@);
        let want = with_dots(entry_views(children@));
        assert(got.len() == want.len());
        assert forall|i: int| 0 <= i < got.len() implies got[i].0 == want[i].0 && got[i].1
            == want[i].1 by {
            if i >= 2 {
                assert(r@[i] == children@[i - 2]);
            }
        }
        assert(got =~= want);
    }
    r
}

/// `l` lists the children of `dir` among the first `n` nodes of the table.
spec fn lists_first(
    s: Seq<NodeEntry>,
    dir: Seq<char>,
    l: Seq<(Seq<char>, bool)>,
    n: int,
) -> bool {
    &&& sorted_names(l)
    &&& forall|i: int| 0 <= i < l.len() ==> is_child_at(s, dir, #[trigger] l[i], n)
    &&& forall|m: int, name: Seq<char>|
        0 <= m < n && !name.contains('/') && child_path(dir, name) != dir
            && #[trigger] s[m].path@ == #[trigger] child_path(dir, name) ==> listed(l, name)
}

/// One of the first `n` nodes of the table is the child `e` of `dir`.
spec fn is_child_at(s: Seq<NodeEntry>, dir: Seq<char>, e: (Seq<char>, bool), n: int) -> bool {
    &&& !e.0.contains('/')
    &&& child_path(dir, e.0) != dir
    &&& exists|m: int|
        0 <= m < n && (#[trigger] s[m]).path@ == child_path(dir, e.0) && e.1 == (s[m].node is Dir)
}

proof fn lemma_lists_first_skip(
    s: Seq<NodeEntry>,
    dir: Seq<char>,
    l: Seq<(Seq<char>, bool)>,
    n: int,
)
    requires
        lists_first(s, dir, l, n),
        0 <= n < s.len(),
        forall|name: Seq<char>|
            !name.contains('/') && child_path(dir, name) != dir ==> s[n].path@
                != #[trigger] child_path(dir, name),
    ensures
        lists_first(s, dir, l, n + 1),
{
    assert forall|i: int| 0 <= i < l.len() implies is_child_at(s, dir, #[trigger] l[i], n + 1) by {
        assert(is_child_at(s, dir, l[i], n));
        let m = choose|m: int|
            0 <= m < n && (#[trigger] s[m]).path@ == child_path(dir, l[i].0) && l[i].1 == (
            s[m].node is Dir);
        assert(0 <= m < n + 1);
    }
}

proof fn lemma_lists_first_add(
    s: Seq<NodeEntry>,
    dir: Seq<char>,
    l: Seq<(Seq<char>, bool)>,
    n: int,
    j: int,
    e: (Seq<char>, bool),
)
    requires
        lists_first(s, dir, l, n),
        0 <= n < s.len(),
        0 <= j <= l.len(),
        !e.0.contains('/'),
        child_path(dir, e.0) != dir,
        s[n].path@ == child_path(dir, e.0),
        e.1 == (s[n].node is Dir),
        sorted_names(l.insert(j, e)),
    ensures
        lists_first(s, dir, l.insert(j, e), n + 1),
{
    let t = l.insert(j, e);
    assert(t[j] == e);
    assert forall|i: int| 0 <= i < t.len() implies is_child_at(s, dir, #[trigger] t[i], n + 1) by {
        if i == j {
            assert(s[n].path@ == child_path(dir, e.0));
        } else {
            let k = if i < j {
                i
            } else {
                i - 1
            };
            assert(t[i] == l[k]);
            assert(is_child_at(s, dir, l[k], n));
            let m = choose|m: int|
                0 <= m < n && (#[trigger] s[m]).path@ == child_path(dir, l[k].0) && l[k].1 == (
                s[m].node is Dir);
            assert(0 <= m < n + 1);
        }
    }
    assert forall|m: int, name: Seq<char>|
        0 <= m < n + 1 && !name.contains('/') && child_path(dir, name) != dir
            && #[trigger] s[m].path@ == #[trigger] child_path(dir, name) implies listed(
        t,
        name,
    ) by {
        if m == n {
            lemma_child_path_injective(dir, name, e.0);
            assert(t[j].0 == name);
        } else {
            assert(listed(l, name));
            let k = choose|k: int| 0 <= k < l.len() && (#[trigger] l[k]).0 == name;
            if k < j {
                assert(t[k] == l[k]);
            } else {
                assert(t[k + 1] == l[k]);
            }
        }
    }
}

/// Different names have different paths.
proof fn lemma_child_path_injective(dir: Seq<char>, a: Seq<char>, b: Seq<char>)
    requires
        child_path(dir, a) == child_path(dir, b),
    ensures
        a == b,
{
    let n = dir_prefix(dir).len() as int;
    assert(child_path(dir, a).skip(n) =~= a);
    assert(child_path(dir, b).skip(n) =~= b);
}

proof fn lemma_lists_all(s: Seq<NodeEntry>, dir: Seq<char>, l: Seq<(Seq<char>, bool)>)
    requires
        distinct(s),
        lists_first(s, dir, l, s.len() as int),
    ensures
        is_listing(node_map(s), dir, l),
        listing(node_map(s), dir) == l,
{
    let nodes = node_map(s);
    assert forall|i: int| 0 <= i < l.len() implies is_child(nodes, dir, (#[trigger] l[i]).0)
        && l[i].1 == (nodes[child_path(dir, l[i].0)] is Dir) by {
        assert(is_child_at(s, dir, l[i], s.len() as int));
        let m = choose|m: int|
            0 <= m < s.len() && (#[trigger] s[m]).path@ == child_path(dir, l[i].0) && l[i].1 == (
            s[m].node is Dir);
        lemma_node_map(s, m);
    }
    assert forall|name: Seq<char>| #[trigger] is_child(nodes, dir, name) implies listed(
        l,
        name,
    ) by {
        let p = child_path(dir, name);
        let m = choose|m: int| stands_at(s, p, m);
        assert(stands_at(s, p, m));
        assert(s[m].path@ == child_path(dir, name));
    }
    assert(is_listing(nodes, dir, l));
    law_listing_unique(nodes, dir, l, listing(nodes, dir));
}

impl InMemFs {
    /// Enumerate direct children of the directory at `abs_path`: their names in
    /// order, each with whether it is a directory. `None` if there is no
    /// directory at `abs_path`.
    pub fn list_dir(&self, abs_path: &str) -> (r: Option<Vec<(String, bool)>>)
        requires
            self.wf(),
        ensures
            r is Some <==> self@.nodes.contains_key(abs_path@) && self@.nodes[abs_path@] is Dir,
            r matches Some(v) ==> {
                &&& entry_views(v@) == listing(self@.nodes, abs_path@)
                &&& is_listing(self@.nodes, abs_path@, entry_views(v@))
            },
    {
        match self.get(abs_path) {
            None => {
                return None;
            },
            Some(FsNode::File(_)) => {
                return None;
            },
            Some(FsNode::Dir) => {},
        }
        let dir = chars_of(abs_path);
        let mut prefix = chars_of(abs_path);
        if !(dir.len() == 1 && dir[0] == '/') {
            assert(dir@ != seq!['/']) by {
                if dir@ == seq!['/'] {
                    assert(dir@[0] == '/');
                }
            }
            prefix.push('/');
        } else {
            assert(dir@ =~= seq!['/']);
        }
        assert(prefix@ == dir_prefix(dir@));
        let mut found: Vec<(Vec<char>, bool)> = Vec::new();
        let n: usize = self.nodes.len();
        let mut i: usize = 0;
        while i < n
            invariant
                self.wf(),
                i <= n,
                n == self.nodes@.len(),
                dir@ == abs_path@,
                prefix@ == dir_prefix(dir@),
                lists_first(self.nodes@, dir@, entry_texts(found@), i as int),
            decreases n - i,
        {
            let cs = chars_of(self.nodes[i].path.as_str());
            let ghost l = entry_texts(found@);
            let mut add = false;
            if has_prefix(&cs, &prefix) && !same_text(self.nodes[i].path.as_str(), abs_path) {
                assert(cs@ =~= prefix@ + cs@.skip(prefix@.len() as int));
                if !has_slash(&cs[prefix.len()..cs.len()]) {
                    add = true;
                }
            }
            if add {
                let name = vstd::slice::slice_to_vec(&cs[prefix.len()..cs.len()]);
                let is_dir = match &self.nodes[i].node {
                    FsNode::Dir => true,
                    FsNode::File(_) => false,
                };
                let ghost e = (name@, is_dir);
                assert(cs@ =~= child_path(dir@, name@));
                proof {
                    if listed(l, name@) {
                        let k = choose|k: int| 0 <= k < l.len() && (#[trigger] l[k]).0 == name@;
                        assert(is_child_at(self.nodes@, dir@, l[k], i as int));
                        let m = choose|m: int|
                            0 <= m < i && (#[trigger] self.nodes@[m]).path@ == child_path(
                                dir@,
                                l[k].0,
                            ) && l[k].1 == (self.nodes@[m].node is Dir);
                        assert(self.nodes@[m].path@ != self.nodes@[i as int].path@);
                    }
                }
                insert_sorted(&mut found, name, is_dir);
                proof {
                    let j = choose|j: int|
                        0 <= j <= l.len() && entry_texts(found@) == #[trigger] l.insert(j, e);
                    lemma_lists_first_add(self.nodes@, dir@, l, i as int, j, e);
                }
            } else {
                proof {
                    let path = self.nodes@[i as int].path@;
                    assert forall|name: Seq<char>|
                        !name.contains('/') && child_path(dir@, name) != dir@ implies path
                        != #[trigger] child_path(dir@, name) by {
                        if path == child_path(dir@, name) {
                            let k = prefix@.len() as int;
                            assert(path.take(k) =~= prefix@);
                            assert(path.skip(k) =~= name);
                            assert(cs@.subrange(k, cs@.len() as int) =~= name);
                        }
                    }
                    lemma_lists_first_skip(self.nodes@, dir@, l, i as int);
                }
            }
            i = i + 1;
        }
        proof {
            lemma_lists_all(self.nodes@, dir@, entry_texts(found@));
        }
        let mut out: Vec<(String, bool)> = Vec::new();
        let total: usize = found.len();
        let mut k: usize = 0;
        while k < total
            invariant
                k <= total,
                total == found@.len(),
                out@.len() == k,
                forall|j: int|
                    0 <= j < k ==> (#[trigger] out@[j]).0@ == found@[j].0@ && out@[j].1
                        == found@[j].1,
            decreases total - k,
        {
            out.push((string_of(&found[k].0), found[k].1));
            k = k + 1;
        }
        assert(entry_views(out@) =~= entry_texts(found@));
        Some(out)
    }

    /// Serialize `struct linux_dirent64` records for `fd` into `out`, starting
    /// at the descriptor's directory position: "." and "..", then the children
    /// in order. Advances the position by the entries written.
    ///
    /// Returns the number of bytes written, 0 when there is nothing left (or
    /// the next entry does not fit), `EBADF` for a descriptor that is not open
    /// or whose node is gone, `ENOTDIR` for a file.
    pub fn getdents64_into(&mut self, fd: i32, out: &mut [u8]) -> (r: i32)
        requires
            old(self).wf(),
        ensures
            final(self).wf(),
            match old(self)@.dir_entries(fd) {
                Err(e) => r == e && final(self)@ == old(self)@ && final(out)@ == old(out)@,
                Ok(l) => {
                    let (after, bytes) = old(self)@.dir_read(fd, l, old(out)@.len() as int);
                    &&& r == bytes.len() as i32
                    &&& final(out)@ == splice(old(out)@, 0, bytes)
                    &&& final(self)@ == after
                },
            },
    {
        let (dir_path, offset, cursor): (String, u64, usize) = match self.entry(fd) {
            None => {
                return EBADF;
            },
            Some(e) => (e.path.clone(), e.offset, e.dir_cursor),
        };
        match self.get(dir_path.as_str()) {
            None => {
                return EBADF;
            },
            Some(FsNode::File(_)) => {
                return ENOTDIR;
            },
            Some(FsNode::Dir) => {},
        }
        let children = match self.list_dir(dir_path.as_str()) {
            None => Vec::new(),
            Some(v) => v,
        };
        let ghost fs = self@;
        let ghost l = with_dots(entry_views(children@));
        assert(fs.dir_entries(fd) == Ok::<Seq<(Seq<char>, bool)>, i32>(l));
        let entries = add_dots(children);
        if cursor >= entries.len() {
            proof {
                assert(out@ =~= splice(out@, 0, Seq::<u8>::empty()));
                assert(self@ =~= fs.with_entry(fd, fs.fd(fd)->0)) by {
                    assert(fs.fds.update(fd as int, fs.fds[fd as int]) =~= fs.fds);
                }
            }
            return 0;
        }
        proof {
            law_fitting_progress(l, cursor as int, out@.len() as int);
            lemma_records_fit(l, DIRENT_INO_BASE as nat, cursor as int, out@.len() as int);
        }
        let (pos, to): (usize, usize) = write_entries(out, &entries, cursor, DIRENT_INO_BASE);
        self.set_slot(fd as usize, FdEntry { path: dir_path, offset, dir_cursor: to });
        pos as i32
    }
}

impl FsView {
    /// Reading the directory `fd`, whose entries are `l`, into `room` bytes: the
    /// state afterwards, and the records from its position on that fit.
    pub open spec fn dir_read(
        self,
        fd: i32,
        l: Seq<(Seq<char>, bool)>,
        room: int,
    ) -> (FsView, Seq<u8>) {
        let e = self.fd(fd)->0;
        let to = fitting(l, e.dir_cursor as int, room);
        (
            self.with_entry(fd, FdView { dir_cursor: to as usize, ..e }),
            records(l, DIRENT_INO_BASE as nat, e.dir_cursor as int, to),
        )
    }

    /// The entries that reading the directory `fd` walks through, or the error
    /// that it gives.
    pub open spec fn dir_entries(self, fd: i32) -> Result<Seq<(Seq<char>, bool)>, i32> {
        match self.fd(fd) {
            None => Err(EBADF),
            Some(e) => if !self.nodes.contains_key(e.path) {
                Err(EBADF)
            } else {
                match self.nodes[e.path] {
                    NodeView::File(_) => Err(ENOTDIR),
                    NodeView::Dir => Ok(with_dots(listing(self.nodes, e.path))),
                }
            },
        }
    }
}

/// Why a host filesystem operation failed, as far as the guest can tell.
#[derive(Debug, Clone, Copy, PartialEq, Eq, Structural)]
pub enum HostErrorKind {
    NotFound,
    PermissionDenied,
    AlreadyExists,
    InvalidInput,
    InvalidData,
    IsADirectory,
    NotADirectory,
    Other,
}

/// The errno for a host filesystem error. Whatever has no errno of its own is
/// an input/output error.
pub open spec fn errno_of(kind: HostErrorKind) -> i32 {
    match kind {
        HostErrorKind::NotFound => ENOENT,
        HostErrorKind::PermissionDenied => EACCES,
        HostErrorKind::AlreadyExists => EEXIST,
        HostErrorKind::InvalidInput => EINVAL,
        HostErrorKind::InvalidData => EINVAL,
        HostErrorKind::IsADirectory => EISDIR,
        HostErrorKind::NotADirectory => ENOTDIR,
        HostErrorKind::Other => EIO,
    }
}

/// Every host error has the errno of its kind; one that the guest cannot tell apart is an
/// input/output error.
pub proof fn law_errnos(kind: HostErrorKind)
    ensures
        errno_of(kind) == match kind {
            HostErrorKind::NotFound => -2int,
            HostErrorKind::PermissionDenied => -13int,
            HostErrorKind::AlreadyExists => -17int,
            HostErrorKind::InvalidInput => -22int,
            HostErrorKind::InvalidData => -22int,
            HostErrorKind::IsADirectory => -21int,
            HostErrorKind::NotADirectory => -20int,
            HostErrorKind::Other => -5int,
        },
{
}

/// Map a host filesystem error to the errno that the guest's libc expects.
pub fn io_err_to_errno(kind: HostErrorKind) -> (r: i32)
    ensures
        r == errno_of(kind),
{
    match kind {
        HostErrorKind::NotFound => ENOENT,
        HostErrorKind::PermissionDenied => EACCES,
        HostErrorKind::AlreadyExists => EEXIST,
        HostErrorKind::InvalidInput => EINVAL,
        HostErrorKind::InvalidData => EINVAL,
        HostErrorKind::IsADirectory => EISDIR,
        HostErrorKind::NotADirectory => ENOTDIR,
        HostErrorKind::Other => EIO,
    }
}

/// What the host says about a file.
#[derive(Debug, Clone, Copy)]
pub struct HostMeta {
    pub ino: u64,
    pub is_dir: bool,
    pub len: u64,
}

impl HostMeta {
    /// The `struct stat` of a host file: its real inode number, so that two
    /// stats of one file agree.
    pub open spec fn record(self) -> Seq<u8> {
        if self.is_dir {
            stat_record(self.ino as nat, MODE_DIR as nat, 0)
        } else {
            stat_record(self.ino as nat, MODE_FILE as nat, self.len as nat)
        }
    }

    /// A record fills a `struct stat`.
    pub proof fn lemma_record_len(self)
        ensures
            self.record().len() == EM_STAT_STRUCT_BYTES,
    {
        lemma_stat_record_len(self.ino as nat, MODE_DIR as nat, 0);
        lemma_stat_record_len(self.ino as nat, MODE_FILE as nat, self.len as nat);
    }

    /// Fill a stat buffer.
    pub fn write(&self, buf: &mut [u8])
        requires
            old(buf)@.len() >= EM_STAT_STRUCT_BYTES,
        ensures
            final(buf)@ == splice(old(buf)@, 0, self.record()),
    {
        if self.is_dir {
            write_stat_buf(buf, self.ino, MODE_DIR, 0);
        } else {
            write_stat_buf(buf, self.ino, MODE_FILE, self.len);
        }
    }
}

/// How to open a host path.
#[derive(Debug, Clone, Copy, PartialEq, Eq, Structural)]
pub enum HostOpenPlan {
    /// Do not: the guest gets this errno.
    Refuse(i32),
    /// A directory, which needs no host handle.
    Directory,
    /// A regular file, with these options.
    File { read: bool, write: bool, create: bool, truncate: bool },
}

/// How an attempt to open a host path ended.
#[derive(Debug, Clone, Copy, PartialEq, Eq, Structural)]
pub enum HostOpened {
    Refused(i32),
    Failed(HostErrorKind),
    Directory,
    File,
}

/// Where a host seek goes.
#[derive(Debug, Clone, Copy, PartialEq, Eq, Structural)]
pub enum HostSeek {
    Start(u64),
    Current(i64),
    End(i64),
}

/// How a host path is to be opened with the guest's `flags`.
pub open spec fn host_plan(is_dir: bool, flags: i32) -> HostOpenPlan {
    if is_dir {
        if wants_write(flags) {
            HostOpenPlan::Refuse(EISDIR)
        } else {
            HostOpenPlan::Directory
        }
    } else {
        HostOpenPlan::File {
            read: !wants_write(flags) || flags & O_RDWR != 0,
            write: wants_write(flags),
            create: wants_create(flags),
            truncate: wants_truncate(flags),
        }
    }
}

/// A host file is opened for writing exactly with bit 1 or 2 of the flags, for reading
/// unless bit 1 alone of them is set, created with bit 64 and truncated with bit 512. A
/// host directory is never opened for writing.
pub proof fn law_host_access_follows_flags(flags: i32)
    ensures
        host_plan(false, flags) matches HostOpenPlan::File { read, write, create, truncate } && {
            &&& write <==> flags & 1 != 0 || flags & 2 != 0
            &&& read <==> flags & 1 == 0 || flags & 2 != 0
            &&& create <==> flags & 64 != 0
            &&& truncate <==> flags & 512 != 0
        },
        flags & 1 == 0 && flags & 2 == 0 ==> host_plan(true, flags) == HostOpenPlan::Directory,
        flags & 1 != 0 || flags & 2 != 0 ==> (host_plan(true, flags) matches HostOpenPlan::Refuse(e)
            && e == -21),
{
}

/// How a host path is to be opened with the guest's `flags`: a directory only
/// for reading, a file with the access that the flags ask for.
pub fn plan_host_open(is_dir: bool, flags: i32) -> (r: HostOpenPlan)
    ensures
        r == host_plan(is_dir, flags),
{
    let want_write = flags & O_WRONLY != 0 || flags & O_RDWR != 0;
    if is_dir {
        if want_write {
            HostOpenPlan::Refuse(EISDIR)
        } else {
            HostOpenPlan::Directory
        }
    } else {
        HostOpenPlan::File {
            read: !want_write || flags & O_RDWR != 0,
            write: want_write,
            create: flags & O_CREAT != 0,
            truncate: flags & O_TRUNC != 0,
        }
    }
}

/// Where a host seek goes, or the errno.
pub open spec fn host_seek(offset: i64, whence: i32) -> Result<HostSeek, i32> {
    if whence == 0 {
        Ok(
            HostSeek::Start(
                if offset < 0 {
                    0
                } else {
                    offset as u64
                },
            ),
        )
    } else if whence == 1 {
        Ok(HostSeek::Current(offset))
    } else if whence == 2 {
        Ok(HostSeek::End(offset))
    } else {
        Err(EINVAL)
    }
}

/// A host seek goes as far as the guest asked for, from where it asked for: 0 is the
/// start, before which there is nothing, 1 the present place and 2 the end. There is no
/// other origin.
pub proof fn law_host_seek_goes_where_asked(offset: i64, whence: i32)
    ensures
        whence == 0 && offset >= 0 ==> (host_seek(offset, whence) matches Ok(HostSeek::Start(n)) && n
            == offset),
        whence == 0 && offset < 0 ==> host_seek(offset, whence) == Ok::<HostSeek, i32>(
            HostSeek::Start(0),
        ),
        whence == 1 ==> (host_seek(offset, whence) matches Ok(HostSeek::Current(n)) && n == offset),
        whence == 2 ==> (host_seek(offset, whence) matches Ok(HostSeek::End(n)) && n == offset),
        !(0 <= whence <= 2) ==> (host_seek(offset, whence) matches Err(e) && e == -22),
{
}

/// Where a host seek goes: a negative offset from the start counts as 0, and an
/// unknown `whence` is `EINVAL`.
pub fn plan_host_seek(offset: i64, whence: i32) -> (r: Result<HostSeek, i32>)
    ensures
        r == host_seek(offset, whence),
{
    if whence == 0 {
        Ok(
            HostSeek::Start(
                if offset < 0 {
                    0
                } else {
                    offset as u64
                },
            ),
        )
    } else if whence == 1 {
        Ok(HostSeek::Current(offset))
    } else if whence == 2 {
        Ok(HostSeek::End(offset))
    } else {
        Err(EINVAL)
    }
}

impl FsView {
    /// The state after a host file was opened on a fresh descriptor.
    pub open spec fn with_host_fd(self, path: Seq<char>) -> FsView {
        FsView {
            host_fds: self.host_fds.insert(self.next_fd() as i32),
            ..self.with_fd(path)
        }
    }

    /// Recording how opening the host path behind `path` ended: the state afterwards, and
    /// the descriptor or the errno.
    pub open spec fn host_opened(self, path: Seq<char>, outcome: HostOpened) -> (FsView, i32) {
        match outcome {
            HostOpened::Refused(e) => (self, e),
            HostOpened::Failed(kind) => (self, errno_of(kind)),
            HostOpened::Directory => (self.with_fd(path), self.next_fd() as i32),
            HostOpened::File => (self.with_host_fd(path), self.next_fd() as i32),
        }
    }

    /// Closing `fd` if it is host-backed: the state afterwards and the result.
    pub open spec fn host_closed(self, fd: i32) -> (FsView, Option<i32>) {
        if self.host_fds.contains(fd) {
            (
                FsView {
                    host_fds: self.host_fds.remove(fd),
                    fds: if 0 <= fd < self.fds.len() {
                        self.fds.update(fd as int, None)
                    } else {
                        self.fds
                    },
                    ..self
                },
                Some(0i32),
            )
        } else {
            (self, None)
        }
    }
}

impl InMemFs {
    /// Record the outcome of opening a host path. A host file takes a descriptor
    /// that is marked host-backed; a host directory takes a plain one, since its
    /// entries are read by path. Returns the descriptor, or a negative errno.
    pub fn open_host(&mut self, guest_abs: String, outcome: HostOpened) -> (r: i32)
        requires
            old(self).wf(),
        ensures
            final(self).wf(),
            (final(self)@, r) == old(self)@.host_opened(guest_abs@, outcome),
    {
        match outcome {
            HostOpened::Refused(e) => e,
            HostOpened::Failed(kind) => io_err_to_errno(kind),
            HostOpened::Directory => self.alloc_fd(guest_abs),
            HostOpened::File => {
                let fd: i32 = self.alloc_fd(guest_abs);
                self.host_fds.insert(fd);
                assert(self@.host_fds =~= old(self)@.host_fds.insert(fd));
                fd
            },
        }
    }

    /// Close a host-backed descriptor and free its slot. `None` if `fd` is not
    /// host-backed.
    pub fn close_host(&mut self, fd: i32) -> (r: Option<i32>)
        requires
            old(self).wf(),
        ensures
            final(self).wf(),
            (final(self)@, r) == old(self)@.host_closed(fd),
    {
        if !self.host_fds.contains(&fd) {
            return None;
        }
        self.host_fds.remove(&fd);
        assert(self@.host_fds =~= old(self)@.host_fds.remove(fd));
        if fd >= 0 && (fd as usize) < self.fds.len() {
            self.fds.set(fd as usize, None);
            assert(self@.fds =~= old(self)@.fds.update(fd as int, None));
        }
        Some(0)
    }

    /// Fill a stat buffer from what the host says about a path. Returns 0 or a
    /// negative errno.
    pub fn stat_host_path(
        &mut self,
        meta: Result<HostMeta, HostErrorKind>,
        buf: &mut [u8],
    ) -> (r: i32)
        requires
            old(self).wf(),
            old(buf)@.len() >= EM_STAT_STRUCT_BYTES,
        ensures
            final(self).wf(),
            final(self)@ == old(self)@,
            match meta {
                Ok(m) => r == 0 && final(buf)@ == splice(old(buf)@, 0, m.record()),
                Err(kind) => r == errno_of(kind) && final(buf)@ == old(buf)@,
            },
    {
        match meta {
            Ok(m) => {
                m.write(buf);
                0
            },
            Err(kind) => io_err_to_errno(kind),
        }
    }

    /// Like [`InMemFs::stat_host_path`], but a path that does not exist yet in a
    /// directory that does is reported as an empty regular file with mode 0644
    /// and a fresh inode number, so that the guest's `realpath` succeeds on it.
    pub fn stat_host_path_for_lstat(
        &mut self,
        meta: Result<HostMeta, HostErrorKind>,
        parent_is_dir: bool,
        buf: &mut [u8],
    ) -> (r: i32)
        requires
            old(self).wf(),
            old(buf)@.len() >= EM_STAT_STRUCT_BYTES,
        ensures
            final(self).wf(),
            match meta {
                Ok(m) => r == 0 && final(buf)@ == splice(old(buf)@, 0, m.record())
                    && final(self)@ == old(self)@,
                Err(HostErrorKind::NotFound) if parent_is_dir => {
                    &&& r == 0
                    &&& final(self)@ == old(self)@.with_next_ino()
                    &&& final(buf)@ == splice(
                        old(buf)@,
                        0,
                        stat_record(old(self)@.next_ino as nat, 0o100644, 0),
                    )
                },
                Err(kind) => r == errno_of(kind) && final(buf)@ == old(buf)@ && final(self)@
                    == old(self)@,
            },
    {
        match meta {
            Ok(m) => {
                m.write(buf);
                0
            },
            Err(kind) => {
                if kind == HostErrorKind::NotFound && parent_is_dir {
                    let ino: u64 = self.alloc_ino();
                    write_stat_buf(buf, ino, 0o100644, 0);
                    0
                } else {
                    io_err_to_errno(kind)
                }
            },
        }
    }

    /// Fill a stat buffer for a host-backed descriptor. `None` if `fd` is not
    /// host-backed.
    pub fn fstat_host(
        &mut self,
        fd: i32,
        meta: Result<HostMeta, HostErrorKind>,
        buf: &mut [u8],
    ) -> (r: Option<i32>)
        requires
            old(self).wf(),
            old(buf)@.len() >= EM_STAT_STRUCT_BYTES,
        ensures
            final(self).wf(),
            final(self)@ == old(self)@,
            if old(self)@.host_fds.contains(fd) {
                match meta {
                    Ok(m) => r == Some(0i32) && final(buf)@ == splice(old(buf)@, 0, m.record()),
                    Err(kind) => r == Some(errno_of(kind)) && final(buf)@ == old(buf)@,
                }
            } else {
                r is None && final(buf)@ == old(buf)@
            },
    {
        if !self.host_fds.contains(&fd) {
            return None;
        }
        Some(self.stat_host_path(meta, buf))
    }
}

/// `s` without the slashes at its end.
pub open spec fn trim_slashes(s: Seq<char>) -> Seq<char>
    decreases s.len(),
{
    if s.len() > 0 && s.last() == '/' {
        trim_slashes(s.drop_last())
    } else {
        s
    }
}

/// Whether the guest path `abs` is the mount point `root` or lies below it.
pub open spec fn under_mount(abs: Seq<char>, root: Seq<char>) -> bool {
    let prefix = trim_slashes(root);
    abs == prefix || starts_with(abs, prefix.push('/'))
}

/// The guest mount points of a list of preopens.
pub open spec fn mounts(preopens: Seq<(String, String)>) -> Seq<Seq<char>> {
    Seq::new(preopens.len(), |i: int| preopens[i].1@)
}

/// The first mount point, from `i` on, that holds `abs`.
pub open spec fn mount_from(abs: Seq<char>, roots: Seq<Seq<char>>, i: int) -> Option<int>
    decreases roots.len() - i,
{
    if i >= roots.len() {
        None
    } else if under_mount(abs, roots[i]) {
        Some(i)
    } else {
        mount_from(abs, roots, i + 1)
    }
}

/// The mount point that holds `abs`: the first one listed that does.
pub open spec fn mount_of(abs: Seq<char>, roots: Seq<Seq<char>>) -> Option<int> {
    mount_from(abs, roots, 0)
}

/// What follows the mount point `root` and a slash in `abs`; `None` for the
/// mount point itself.
pub open spec fn below_mount(abs: Seq<char>, root: Seq<char>) -> Option<Seq<char>> {
    let prefix = trim_slashes(root);
    if abs == prefix {
        None
    } else {
        Some(abs.skip(prefix.len() as int + 1))
    }
}

/// A path on the host: a preopen, and the path below it.
#[derive(Debug)]
pub struct HostPath {
    /// Index of the preopen.
    pub root: usize,
    /// Path below the preopen's directory; `None` for the directory itself.
    pub child: Option<String>,
}

impl HostPath {
    /// `self` is where the guest path `abs` lives on the host.
    pub open spec fn denotes(self, abs: Seq<char>, roots: Seq<Seq<char>>) -> bool {
        &&& mount_of(abs, roots) == Some(self.root as int)
        &&& match self.child {
            Some(c) => below_mount(abs, roots[self.root as int]) == Some(c@),
            None => below_mount(abs, roots[self.root as int]) is None,
        }
    }
}

/// Map a guest canonical absolute path to a host path if it falls under a
/// preopen, otherwise `None`. Each preopen is a host directory and the guest
/// path that it is mounted at.
pub fn resolve_to_host_path(abs_guest: &str, preopens: &Vec<(String, String)>) -> (r: Option<
    HostPath,
>)
    ensures
        r is Some <==> mount_of(abs_guest@, mounts(preopens@)) is Some,
        r matches Some(h) ==> h.denotes(abs_guest@, mounts(preopens@)),
{
    let abs = chars_of(abs_guest);
    let n: usize = preopens.len();
    let ghost roots = mounts(preopens@);
    let mut i: usize = 0;
    while i < n
        invariant
            i <= n,
            n == preopens@.len(),
            roots == mounts(preopens@),
            abs@ == abs_guest@,
            mount_of(abs@, roots) == mount_from(abs@, roots, i as int),
        decreases n - i,
    {
        let root = chars_of(preopens[i].1.as_str());
        assert(root@ == roots[i as int]);
        let mut prefix = root;
        while prefix.len() > 0 && prefix[prefix.len() - 1] == '/'
            invariant
                trim_slashes(prefix@) == trim_slashes(root@),
            decreases prefix@.len(),
        {
            prefix.pop();
        }
        assert(prefix@ == trim_slashes(root@));
        let len: usize = prefix.len();
        let mount = string_of(&prefix);
        if same_text(abs_guest, mount.as_str()) {
            return Some(HostPath { root: i, child: None });
        }
        prefix.push('/');
        if has_prefix(&abs, &prefix) {
            let total: usize = abs.len();
            assert(len + 1 <= total);
            let child = string_of(&abs[len + 1..total]);
            assert(child@ =~= abs@.skip(len + 1));
            return Some(HostPath { root: i, child: Some(child) });
        }
        i = i + 1;
    }
    None
}

/// Names in order, equal names next to each other.
pub open spec fn ordered_names(l: Seq<(Seq<char>, bool)>) -> bool {
    forall|i: int, j: int|
        0 <= i < j < l.len() ==> !text_before((#[trigger] l[j]).0, (#[trigger] l[i]).0)
}

/// Put the entries of a host directory in the order in which they are listed.
pub fn sort_host_entries(entries: Vec<(String, bool)>) -> (r: Vec<(String, bool)>)
    ensures
        ordered_names(entry_views(r@)),
        entry_views(r@).to_multiset() == entry_views(entries@).to_multiset(),
{
    broadcast use vstd::seq_lib::group_to_multiset_ensures;

    let mut out: Vec<(String, bool)> = Vec::new();
    let mut rest = entries;
    let ghost all = entry_views(entries@);
    assert(entry_views(rest@) =~= all);
    assert(entry_views(out@) =~= Seq::empty());
    assert(entry_views(out@).to_multiset().add(all.to_multiset()) =~= all.to_multiset());
    while rest.len() > 0
        invariant
            ordered_names(entry_views(out@)),
            entry_views(out@).to_multiset().add(entry_views(rest@).to_multiset())
                == all.to_multiset(),
        decreases rest@.len(),
    {
        let ghost left = entry_views(rest@);
        let ghost l = entry_views(out@);
        if let Some(e) = rest.pop() {
            let key = chars_of(e.0.as_str());
            let n: usize = out.len();
            let mut j: usize = 0;
            while j < n && !before(&key, &chars_of(out[j].0.as_str()))
                invariant
                    j <= n,
                    n == out@.len(),
                    l == entry_views(out@),
                    ordered_names(l),
                    forall|i: int| 0 <= i < j ==> !text_before(key@, (#[trigger] l[i]).0),
                decreases n - j,
            {
                assert(l[j as int].0 == out@[j as int].0@);
                j = j + 1;
            }
            let ghost v = (e.0@, e.1);
            proof {
                if j < n {
                    assert(l[j as int].0 == out@[j as int].0@);
                }
                lemma_ordered_insert(l, j as int, v);
                assert(left =~= entry_views(rest@).push(v));
                vstd::seq_lib::to_multiset_insert(l, j as int, v);
                vstd::seq_lib::to_multiset_build(entry_views(rest@), v);
                assert(left.to_multiset() == entry_views(rest@).to_multiset().insert(v));
            }
            out.insert(j, e);
            assert(entry_views(out@) =~= l.insert(j as int, v));
            assert(entry_views(out@).to_multiset() == l.to_multiset().insert(v));
            assert(entry_views(out@).to_multiset().add(entry_views(rest@).to_multiset())
                =~= l.to_multiset().add(left.to_multiset()));
        }
    }
    assert(entry_views(rest@) =~= Seq::empty());
    assert(entry_views(out@).to_multiset().add(entry_views(rest@).to_multiset()) =~= entry_views(
        out@,
    ).to_multiset());
    out
}

proof fn lemma_ordered_insert(l: Seq<(Seq<char>, bool)>, j: int, v: (Seq<char>, bool))
    requires
        ordered_names(l),
        0 <= j <= l.len(),
        forall|i: int| 0 <= i < j ==> !text_before(v.0, (#[trigger] l[i]).0),
        j < l.len() ==> text_before(v.0, l[j].0),
    ensures
        ordered_names(l.insert(j, v)),
{
    let t = l.insert(j, v);
    assert forall|a: int, b: int| 0 <= a < b < t.len() implies !text_before(
        (#[trigger] t[b]).0,
        (#[trigger] t[a]).0,
    ) by {
        if b < j {
            assert(t[a] == l[a] && t[b] == l[b]);
        } else if b == j {
            assert(t[a] == l[a]);
        } else if a < j {
            assert(t[a] == l[a] && t[b] == l[b - 1]);
        } else if a == j {
            assert(t[b] == l[b - 1]);
            if text_before(l[b - 1].0, v.0) {
                lemma_text_before_transitive(l[b - 1].0, v.0, l[j].0);
                if b - 1 == j {
                    lemma_text_before_irreflexive(l[j].0);
                }
            }
        } else {
            assert(t[a] == l[a - 1] && t[b] == l[b - 1]);
        }
    }
}

} // verus!
