//! What holds of the in-memory filesystem as a whole: what a read gives back of a
//! write, which descriptors an open hands out, what reading a directory visits, and
//! that descriptors of files, sockets and pipes are told apart by their numbers.

use vstd::prelude::*;

use crate::bytes::{law_le_round_trip, le_limit, le_value, word_at};
use crate::emscripten_fs::{
    all_canonical, below_mount, errno_of, mount_from, mount_of, node_mode, node_size, on_the_way, read_len, read_slice,
    resolved, rooted, trim_slashes, under_mount, with_dirs, with_file_at, written_at, FdView, FsView, HostMeta,
    HostOpened, HostPath, NodeView, DIRENT_INO_BASE, EISDIR, ENOENT,
};
use crate::emscripten_multiprocessing::{ProcessView, PIPE_FD_BASE};
use crate::fs_listing::{
    child_path, entry_record, fitting, is_child, is_listing, law_fitting_progress,
    law_records_join, listed, listing, records, sorted_names, with_dots,
};
use crate::fs_path::{
    canonical, is_canonical, law_canonical_fixes_canonical, law_canonical_is_canonical, law_names_of_render,
    law_parent_of_canonical, law_path_steps, law_render_steps, lemma_split_slashed, names, parent, plain_name, plain_names, render,
    slashed,
};
use crate::fs_records::{dirent, dirent_len, law_dirent_fields, law_stat_fields, lemma_dirent_len};
use crate::socket::{SocketView, SOCK_FD_BASE};
use crate::text::{
    lemma_split_join, lemma_split_nonempty, lemma_text_before_irreflexive, lemma_text_before_total,
    lemma_text_before_transitive, split_on, starts_with, text_before,
};

verus! {

/// Reading where a positioned write went gives what was written, and the bytes
/// before and after it are as they were.
pub proof fn law_pwrite_reads_back(data: Seq<u8>, src: Seq<u8>, offset: u64)
    ensures
        ({
            let after = written_at(data, src, offset as int);
            &&& read_slice(after, offset, src.len() as int) == src
            &&& forall|i: int|
                0 <= i < data.len() && !(offset <= i < offset + src.len()) ==> #[trigger] after[i]
                    == data[i]
            &&& forall|i: int| data.len() <= i < offset && i < after.len() ==> #[trigger] after[i] == 0
        }),
{
    let after = written_at(data, src, offset as int);
    if src.len() > 0 {
        assert(read_slice(after, offset, src.len() as int) =~= src);
    } else {
        assert(read_slice(after, offset, 0) =~= src);
    }
}

/// A write goes to the end of the file: reading from the old end gives it back,
/// and what was there before is unchanged.
pub proof fn law_write_reads_back(s: FsView, fd: i32, data: Seq<u8>, offset: u64)
    requires
        s.fd_file(fd) is Ok,
        s.fd_file(fd)->Ok_0.len() <= u64::MAX,
    ensures
        ({
            let file = s.fd_file(fd)->Ok_0;
            let after = s.with_file(fd, file + data).with_offset(fd, offset);
            &&& after.fd_file(fd) == Ok::<Seq<u8>, i32>(file + data)
            &&& after.fd(fd)->0.offset == offset
            &&& read_slice(file + data, file.len() as u64, data.len() as int) == data
            &&& read_slice(file + data, 0, file.len() as int) == file
        }),
{
    let file = s.fd_file(fd)->Ok_0;
    assert(read_slice(file + data, file.len() as u64, data.len() as int) =~= data);
    assert(read_slice(file + data, 0, file.len() as int) =~= file);
}

/// A file written from empty is read back whole from its start.
pub proof fn law_whole_file_reads_back(data: Seq<u8>, room: int)
    requires
        room >= data.len(),
    ensures
        read_slice(data, 0, room) == data,
{
    assert(read_slice(data, 0, room) =~= data);
}

/// At or behind the end of a file there is nothing to read.
pub proof fn law_nothing_behind_the_end(data: Seq<u8>, offset: u64, room: int)
    requires
        room >= 0,
        offset >= data.len(),
    ensures
        read_len(data, offset, room) == 0,
{
}

proof fn lemma_next_fd(s: FsView, i: int)
    requires
        0 <= i <= s.fds.len(),
    ensures
        i <= s.free_from(i) <= s.fds.len(),
        s.free_from(i) < s.fds.len() ==> s.free_slot(s.free_from(i)),
        forall|k: int| i <= k < s.free_from(i) ==> !#[trigger] s.free_slot(k),
    decreases s.fds.len() - i,
{
    if i < s.fds.len() && !s.free_slot(i) {
        lemma_next_fd(s, i + 1);
    }
}

/// A successful open hands out a descriptor above stderr that was not open, fresh
/// and at the start, on a node that exists; the other descriptors are as they
/// were. A failed one changes nothing.
pub proof fn law_open_is_fresh(s: FsView, p: Seq<char>, flags: i32, other: i32)
    requires
        3 <= s.fds.len() <= i32::MAX,
    ensures
        ({
            let (t, fd) = s.opened(p, flags);
            &&& fd < 0 ==> t == s && (fd == ENOENT || fd == EISDIR)
            &&& fd >= 0 ==> {
                &&& fd >= 3
                &&& s.fd(fd) is None
                &&& t.fd(fd) == Some(FdView { path: s.open_path(p), offset: 0, dir_cursor: 0 })
                &&& t.nodes.contains_key(s.open_path(p))
                &&& other != fd ==> t.fd(other) == s.fd(other)
            }
        }),
{
    let (t, fd) = s.opened(p, flags);
    lemma_next_fd(s, 3);
    if fd >= 0 {
        let nodes = t.nodes;
        lemma_next_fd_nodes(s, nodes, 3);
    }
}

/// The next descriptor depends on the descriptor table alone.
proof fn lemma_next_fd_nodes(s: FsView, nodes: Map<Seq<char>, NodeView>, i: int)
    ensures
        s.with_nodes(nodes).free_from(i) == s.free_from(i),
    decreases s.fds.len() - i,
{
    if i < s.fds.len() {
        lemma_next_fd_nodes(s, nodes, i + 1);
    }
}

/// Opening never takes a node away, and changes the contents of the opened file
/// alone.
pub proof fn law_open_keeps_nodes(s: FsView, p: Seq<char>, flags: i32, other: Seq<char>)
    requires
        s.nodes.contains_key(other),
    ensures
        s.opened(p, flags).0.nodes.contains_key(other),
        other != s.open_path(p) ==> s.opened(p, flags).0.nodes[other] == s.nodes[other],
{
}

/// A closed descriptor's number is the next to be handed out, if no lower one is
/// free.
pub proof fn law_closed_slot_is_reused(s: FsView, fd: i32)
    requires
        s.closable(fd),
        s.next_fd() > fd,
    ensures
        s.without_fd(fd).fd(fd) is None,
        s.without_fd(fd).next_fd() == fd,
{
    let t = s.without_fd(fd);
    lemma_next_fd(s, 3);
    lemma_next_fd(t, 3);
    assert(t.free_slot(fd as int));
    assert forall|k: int| 3 <= k < fd implies !#[trigger] t.free_slot(k) by {
        assert(!s.free_slot(k));
        if s.host_fds.contains(k as i32) {
            assert(t.host_fds.contains(k as i32));
        }
    }
    if t.next_fd() < fd {
        assert(!t.free_slot(t.next_fd()));
    }
}

/// Making a directory leaves every node that exists alone, and everything on the
/// way to it exists afterwards.
pub proof fn law_mkdir_keeps_and_makes(
    nodes: Map<Seq<char>, NodeView>,
    path: Seq<char>,
    p: Seq<char>,
)
    ensures
        nodes.contains_key(p) ==> with_dirs(nodes, names(path)).contains_key(p) && with_dirs(
            nodes,
            names(path),
        )[p] == nodes[p],
        on_the_way(p, names(path)) ==> with_dirs(nodes, names(path)).contains_key(p),
        with_dirs(nodes, names(path)).contains_key(canonical(path)),
        !nodes.contains_key(canonical(path)) ==> with_dirs(nodes, names(path))[canonical(path)]
            is Dir,
{
    let parts = names(path);
    assert(parts.take(parts.len() as int) =~= parts);
    assert(on_the_way(canonical(path), parts));
}

/// Making a directory twice is the same as making it once.
pub proof fn law_mkdir_idempotent(nodes: Map<Seq<char>, NodeView>, path: Seq<char>)
    ensures
        with_dirs(with_dirs(nodes, names(path)), names(path)) == with_dirs(nodes, names(path)),
{
    let once = with_dirs(nodes, names(path));
    assert(with_dirs(once, names(path)) =~= once);
}

/// A file inserted anywhere below the root is found with its contents; every node
/// elsewhere is as it was.
pub proof fn law_insert_reads_back(
    nodes: Map<Seq<char>, NodeView>,
    path: Seq<char>,
    contents: Seq<u8>,
    other: Seq<char>,
)
    requires
        canonical(path) != seq!['/'],
    ensures
        with_file_at(nodes, canonical(path), contents).contains_key(canonical(path)),
        with_file_at(nodes, canonical(path), contents)[canonical(path)] == NodeView::File(contents),
        other != canonical(path) && nodes.contains_key(other) ==> with_file_at(
            nodes,
            canonical(path),
            contents,
        ).contains_key(other) && with_file_at(nodes, canonical(path), contents)[other]
            == nodes[other],
{
}

/// An inserted file is a child of its directory, and its directory exists.
pub proof fn law_inserted_is_a_child(
    nodes: Map<Seq<char>, NodeView>,
    parts: Seq<Seq<char>>,
    contents: Seq<u8>,
)
    requires
        plain_names(parts),
        parts.len() > 0,
    ensures
        is_child(
            with_file_at(nodes, render(parts), contents),
            render(parts.drop_last()),
            parts.last(),
        ),
        with_file_at(nodes, render(parts), contents).contains_key(render(parts.drop_last())),
{
    let dir = parts.drop_last();
    let name = parts.last();
    assert(plain_name(parts[parts.len() - 1]));
    assert(plain_names(dir)) by {
        assert forall|i: int| 0 <= i < dir.len() implies plain_name(#[trigger] dir[i]) by {
            assert(plain_name(parts[i]));
        }
    }
    law_parent_of_canonical(parts);
    law_names_of_render(dir);
    lemma_child_of_render(parts);
    assert(dir.take(dir.len() as int) =~= dir);
    assert(on_the_way(render(dir), dir));
}

/// The path of a name inside a rendered directory.
proof fn lemma_child_of_render(parts: Seq<Seq<char>>)
    requires
        plain_names(parts),
        parts.len() > 0,
    ensures
        child_path(render(parts.drop_last()), parts.last()) == render(parts),
        render(parts) != render(parts.drop_last()),
{
    let dir = parts.drop_last();
    let name = parts.last();
    assert(plain_name(parts[parts.len() - 1]));
    if dir.len() == 0 {
        assert(slashed(dir) =~= Seq::<char>::empty());
        assert(slashed(parts) =~= seq!['/'] + name);
        assert(child_path(render(dir), name) =~= render(parts));
        assert(render(parts).len() > 1);
    } else {
        assert(plain_name(parts[dir.len() - 1]));
        assert(dir.last() == parts[dir.len() - 1]);
        assert(render(dir).len() > 1);
        assert(child_path(render(dir), name) =~= render(parts));
        assert(render(parts).len() > render(dir).len());
    }
}

/// Making directories and inserting files keep every path of the table canonical.
pub proof fn law_paths_stay_canonical(
    nodes: Map<Seq<char>, NodeView>,
    path: Seq<char>,
    contents: Seq<u8>,
)
    requires
        all_canonical(nodes),
    ensures
        all_canonical(with_dirs(nodes, names(path))),
        all_canonical(with_file_at(nodes, canonical(path), contents)),
{
    lemma_dirs_canonical(nodes, path);
    law_canonical_is_canonical(path);
    match parent(canonical(path)) {
        Some(dir) => {
            lemma_dirs_canonical(nodes, dir);
        },
        None => {},
    }
}

/// Opening keeps every path of the table canonical, and a canonical path is opened
/// as it is.
pub proof fn law_open_keeps_paths_canonical(s: FsView, p: Seq<char>, flags: i32)
    requires
        all_canonical(s.nodes),
    ensures
        all_canonical(s.opened(p, flags).0.nodes),
        is_canonical(p) ==> s.open_path(p) == p,
{
    law_canonical_is_canonical(p);
    if is_canonical(p) {
        law_canonical_fixes_canonical(p);
    }
    match parent(s.open_path(p)) {
        Some(dir) => {
            lemma_dirs_canonical(s.nodes, dir);
        },
        None => {},
    }
}

/// The root is a directory and stays one, whatever is made, opened, written,
/// inserted or removed.
pub proof fn law_root_stays_a_directory(
    s: FsView,
    path: Seq<char>,
    flags: i32,
    fd: i32,
    contents: Seq<u8>,
)
    requires
        rooted(s.nodes),
    ensures
        rooted(with_dirs(s.nodes, names(path))),
        rooted(s.opened(path, flags).0.nodes),
        s.fd_file(fd) is Ok ==> rooted(s.with_file(fd, contents).nodes),
        rooted(with_file_at(s.nodes, path, contents)),
        rooted(s.unlinked(path).0.nodes),
{
}

proof fn lemma_dirs_canonical(nodes: Map<Seq<char>, NodeView>, path: Seq<char>)
    requires
        all_canonical(nodes),
    ensures
        all_canonical(with_dirs(nodes, names(path))),
{
    let parts = names(path);
    law_canonical_is_canonical(path);
    assert forall|p: Seq<char>| #[trigger]
        with_dirs(nodes, parts).contains_key(p) implies is_canonical(p) by {
        if !nodes.contains_key(p) {
            let k = choose|k: int| 0 <= k <= parts.len() && p == render(#[trigger] parts.take(k));
            let front = parts.take(k);
            assert(plain_names(front)) by {
                assert forall|i: int| 0 <= i < front.len() implies plain_name(
                    #[trigger] front[i],
                ) by {
                    assert(plain_name(parts[i]));
                }
            }
        }
    }
}

/// `l` with the entry `e` put into its place.
spec fn inserted(l: Seq<(Seq<char>, bool)>, e: (Seq<char>, bool)) -> Seq<(Seq<char>, bool)>
    decreases l.len(),
{
    if l.len() == 0 || text_before(l.last().0, e.0) {
        l.push(e)
    } else {
        inserted(l.drop_last(), e).push(l.last())
    }
}

/// `x` is one of the entries of `l`.
spec fn among(l: Seq<(Seq<char>, bool)>, x: (Seq<char>, bool)) -> bool {
    exists|i: int| 0 <= i < l.len() && #[trigger] l[i] == x
}

proof fn lemma_inserted(l: Seq<(Seq<char>, bool)>, e: (Seq<char>, bool))
    requires
        sorted_names(l),
        !listed(l, e.0),
    ensures
        sorted_names(inserted(l, e)),
        forall|x: (Seq<char>, bool)| #[trigger] among(inserted(l, e), x) <==> among(l, x) || x == e,
    decreases l.len(),
{
    let r = inserted(l, e);
    if l.len() == 0 || text_before(l.last().0, e.0) {
        assert forall|i: int, j: int| 0 <= i < j < r.len() implies text_before(
            (#[trigger] r[i]).0,
            (#[trigger] r[j]).0,
        ) by {
            if j == l.len() && i < l.len() - 1 {
                assert(text_before(l[i].0, l[l.len() - 1].0));
                lemma_text_before_transitive(l[i].0, l.last().0, e.0);
            } else if j < l.len() {
                assert(text_before(l[i].0, l[j].0));
            }
        }
        assert forall|x: (Seq<char>, bool)| #[trigger] among(r, x) <==> among(l, x) || x == e by {
            if among(r, x) {
                let i = choose|i: int| 0 <= i < r.len() && #[trigger] r[i] == x;
                if i < l.len() {
                    assert(l[i] == x);
                }
            }
            if among(l, x) {
                let i = choose|i: int| 0 <= i < l.len() && #[trigger] l[i] == x;
                assert(r[i] == x);
            }
            assert(r[l.len() as int] == e);
        }
    } else {
        let init = l.drop_last();
        let last = l.last();
        assert(sorted_names(init)) by {
            assert forall|i: int, j: int| 0 <= i < j < init.len() implies text_before(
                (#[trigger] init[i]).0,
                (#[trigger] init[j]).0,
            ) by {
                assert(text_before(l[i].0, l[j].0));
            }
        }
        assert(!listed(init, e.0)) by {
            if listed(init, e.0) {
                let i = choose|i: int| 0 <= i < init.len() && (#[trigger] init[i]).0 == e.0;
                assert(l[i].0 == e.0);
            }
        }
        lemma_inserted(init, e);
        let front = inserted(init, e);
        assert(l[l.len() - 1].0 != e.0) by {
            if l[l.len() - 1].0 == e.0 {
                assert(listed(l, e.0));
            }
        }
        lemma_text_before_total(last.0, e.0);
        assert forall|i: int, j: int| 0 <= i < j < r.len() implies text_before(
            (#[trigger] r[i]).0,
            (#[trigger] r[j]).0,
        ) by {
            if j == front.len() {
                assert(among(front, front[i]));
                if front[i] != e {
                    let k = choose|k: int| 0 <= k < init.len() && #[trigger] init[k] == front[i];
                    assert(text_before(l[k].0, l[l.len() - 1].0));
                }
            } else {
                assert(text_before(front[i].0, front[j].0));
            }
        }
        assert forall|x: (Seq<char>, bool)| #[trigger] among(r, x) <==> among(l, x) || x == e by {
            if among(r, x) {
                let i = choose|i: int| 0 <= i < r.len() && #[trigger] r[i] == x;
                if i < front.len() {
                    assert(front[i] == x);
                    assert(among(front, x));
                    if x != e {
                        let k = choose|k: int| 0 <= k < init.len() && #[trigger] init[k] == x;
                        assert(l[k] == x);
                    }
                } else {
                    assert(l[l.len() - 1] == x);
                }
            }
            if among(l, x) || x == e {
                if x == e {
                    assert(among(front, x));
                } else {
                    let k = choose|k: int| 0 <= k < l.len() && #[trigger] l[k] == x;
                    if k < init.len() {
                        assert(init[k] == x);
                        assert(among(init, x));
                        assert(among(front, x));
                    } else {
                        assert(r[front.len() as int] == x);
                    }
                }
                if among(front, x) {
                    let i = choose|i: int| 0 <= i < front.len() && #[trigger] front[i] == x;
                    assert(r[i] == x);
                }
            }
        }
    }
}

/// The name that the child of `dir` at `p` has.
spec fn name_in(dir: Seq<char>, p: Seq<char>) -> Seq<char> {
    choose|name: Seq<char>| #[trigger] child_path(dir, name) == p
}

proof fn lemma_child_path_injective(dir: Seq<char>, a: Seq<char>, b: Seq<char>)
    requires
        child_path(dir, a) == child_path(dir, b),
    ensures
        a == b,
{
    let n = child_path(dir, a).len() - a.len();
    assert(child_path(dir, a).skip(n as int) =~= a);
    assert(child_path(dir, b).skip(n as int) =~= b);
}

/// Every directory of a table with finitely many nodes has a listing.
pub proof fn law_listing_exists(nodes: Map<Seq<char>, NodeView>, dir: Seq<char>)
    requires
        nodes.dom().finite(),
    ensures
        is_listing(nodes, dir, listing(nodes, dir)),
    decreases nodes.dom().len(),
{
    if nodes.dom().len() == 0 {
        let l = Seq::<(Seq<char>, bool)>::empty();
        assert forall|p: Seq<char>| !#[trigger] nodes.contains_key(p) by {
            if nodes.contains_key(p) {
                assert(nodes.dom().contains(p));
                assert(nodes.dom() =~= Set::<Seq<char>>::empty());
            }
        }
        assert(is_listing(nodes, dir, l));
    } else {
        let p = nodes.dom().choose();
        assert(nodes.dom().contains(p));
        let fewer = nodes.remove(p);
        assert(fewer.dom() =~= nodes.dom().remove(p));
        law_listing_exists(fewer, dir);
        let l = listing(fewer, dir);
        let name = name_in(dir, p);
        if child_path(dir, name) == p && !name.contains('/') && p != dir {
            let e = (name, nodes[p] is Dir);
            assert(!listed(l, name)) by {
                if listed(l, name) {
                    let i = choose|i: int| 0 <= i < l.len() && (#[trigger] l[i]).0 == name;
                    assert(is_child(fewer, dir, l[i].0));
                }
            }
            lemma_inserted(l, e);
            let r = inserted(l, e);
            assert forall|i: int| 0 <= i < r.len() implies is_child(nodes, dir, (#[trigger] r[i]).0)
                && r[i].1 == (nodes[child_path(dir, r[i].0)] is Dir) by {
                assert(among(r, r[i]));
                if r[i] != e {
                    let k = choose|k: int| 0 <= k < l.len() && #[trigger] l[k] == r[i];
                    assert(is_child(fewer, dir, l[k].0));
                }
            }
            assert forall|n: Seq<char>| #[trigger] is_child(nodes, dir, n) implies listed(r, n) by {
                if n == name {
                    assert(among(r, e));
                    let i = choose|i: int| 0 <= i < r.len() && #[trigger] r[i] == e;
                    assert(r[i].0 == n);
                } else {
                    if child_path(dir, n) == p {
                        lemma_child_path_injective(dir, n, name);
                    }
                    assert(is_child(fewer, dir, n));
                    let k = choose|k: int| 0 <= k < l.len() && (#[trigger] l[k]).0 == n;
                    assert(among(l, l[k]));
                    assert(among(r, l[k]));
                    let i = choose|i: int| 0 <= i < r.len() && #[trigger] r[i] == l[k];
                    assert(r[i].0 == n);
                }
            }
            assert(is_listing(nodes, dir, r));
        } else {
            assert forall|n: Seq<char>| #[trigger] is_child(nodes, dir, n) implies listed(l, n) by {
                if child_path(dir, n) == p {
                    lemma_child_path_injective(dir, n, name);
                }
                assert(is_child(fewer, dir, n));
            }
            assert forall|i: int| 0 <= i < l.len() implies is_child(nodes, dir, (#[trigger] l[i]).0)
                && l[i].1 == (nodes[child_path(dir, l[i].0)] is Dir) by {
                assert(is_child(fewer, dir, l[i].0));
            }
            assert(is_listing(nodes, dir, l));
        }
    }
}

/// A listing names no child twice.
pub proof fn law_listed_once(l: Seq<(Seq<char>, bool)>, i: int, j: int)
    requires
        sorted_names(l),
        0 <= i < l.len(),
        0 <= j < l.len(),
        l[i].0 == l[j].0,
    ensures
        i == j,
{
    lemma_text_before_irreflexive(l[i].0);
    if i < j {
        assert(text_before(l[i].0, l[j].0));
    } else if j < i {
        assert(text_before(l[j].0, l[i].0));
    }
}

/// Where successive reads of a directory, one for each buffer size in `rooms`,
/// leave off.
pub open spec fn walk_end(l: Seq<(Seq<char>, bool)>, from: int, rooms: Seq<int>) -> int
    decreases rooms.len(),
{
    if rooms.len() == 0 {
        from
    } else {
        fitting(l, walk_end(l, from, rooms.drop_last()), rooms.last())
    }
}

/// What successive reads of a directory give, one after the other.
pub open spec fn walk_records(
    l: Seq<(Seq<char>, bool)>,
    base: nat,
    from: int,
    rooms: Seq<int>,
) -> Seq<u8>
    decreases rooms.len(),
{
    if rooms.len() == 0 {
        Seq::empty()
    } else {
        let at = walk_end(l, from, rooms.drop_last());
        walk_records(l, base, from, rooms.drop_last()) + records(
            l,
            base,
            at,
            fitting(l, at, rooms.last()),
        )
    }
}

/// Reading a directory in pieces gives the same records as reading it at once, up
/// to where the reads left off: no entry is skipped and none comes twice.
pub proof fn law_pages_join(
    l: Seq<(Seq<char>, bool)>,
    base: nat,
    from: int,
    rooms: Seq<int>,
)
    requires
        0 <= from <= l.len(),
    ensures
        from <= walk_end(l, from, rooms) <= l.len(),
        walk_records(l, base, from, rooms) == records(l, base, from, walk_end(l, from, rooms)),
    decreases rooms.len(),
{
    if rooms.len() > 0 {
        let at = walk_end(l, from, rooms.drop_last());
        law_pages_join(l, base, from, rooms.drop_last());
        law_fitting_progress(l, at, rooms.last());
        law_records_join(l, base, from, at, fitting(l, at, rooms.last()));
    }
}

/// Each buffer takes at least the next record, as long as there is one.
pub open spec fn roomy(l: Seq<(Seq<char>, bool)>, from: int, rooms: Seq<int>) -> bool {
    forall|k: int|
        0 <= k < rooms.len() ==> next_fits(l, walk_end(l, from, #[trigger] rooms.take(k)), rooms[k])
}

/// The entry at `at`, if there is one, fits in `room` bytes.
pub open spec fn next_fits(l: Seq<(Seq<char>, bool)>, at: int, room: int) -> bool {
    at < l.len() ==> dirent_len(l[at].0) <= room
}

/// With buffers that take at least the next record each, as many reads as there are
/// entries come to the end of the directory.
pub proof fn law_walk_reaches_the_end(l: Seq<(Seq<char>, bool)>, from: int, rooms: Seq<int>)
    requires
        0 <= from <= l.len(),
        rooms.len() >= l.len() - from,
        roomy(l, from, rooms),
    ensures
        walk_end(l, from, rooms) == l.len(),
{
    lemma_walk_advances(l, from, rooms);
}

proof fn lemma_roomy_front(l: Seq<(Seq<char>, bool)>, from: int, rooms: Seq<int>)
    requires
        rooms.len() > 0,
        roomy(l, from, rooms),
    ensures
        roomy(l, from, rooms.drop_last()),
        next_fits(l, walk_end(l, from, rooms.drop_last()), rooms.last()),
{
    let short = rooms.drop_last();
    assert forall|k: int| 0 <= k < short.len() implies next_fits(
        l,
        walk_end(l, from, #[trigger] short.take(k)),
        short[k],
    ) by {
        assert(short.take(k) =~= rooms.take(k));
    }
    assert(rooms.take(rooms.len() - 1) =~= short);
}

proof fn lemma_walk_advances(l: Seq<(Seq<char>, bool)>, from: int, rooms: Seq<int>)
    requires
        0 <= from <= l.len(),
        roomy(l, from, rooms),
    ensures
        walk_end(l, from, rooms) <= l.len(),
        walk_end(l, from, rooms) >= from + rooms.len() || walk_end(l, from, rooms) == l.len(),
        walk_end(l, from, rooms) >= 0,
    decreases rooms.len(),
{
    if rooms.len() > 0 {
        lemma_roomy_front(l, from, rooms);
        lemma_walk_advances(l, from, rooms.drop_last());
        law_fitting_progress(l, walk_end(l, from, rooms.drop_last()), rooms.last());
    }
}

/// Reading the directory `fd`, whose entries are `l`, again and again, once for each
/// buffer size in `rooms`: the state afterwards, and all records that were read.
pub open spec fn walked(
    s: FsView,
    fd: i32,
    l: Seq<(Seq<char>, bool)>,
    rooms: Seq<int>,
) -> (FsView, Seq<u8>)
    decreases rooms.len(),
{
    if rooms.len() == 0 {
        (s, Seq::empty())
    } else {
        let (m, bytes) = walked(s, fd, l, rooms.drop_last());
        let (after, more) = m.dir_read(fd, l, rooms.last());
        (after, bytes + more)
    }
}

/// Where record `i` starts in the records of a whole directory.
pub open spec fn record_start(l: Seq<(Seq<char>, bool)>, i: int) -> int {
    records(l, DIRENT_INO_BASE as nat, 0, i).len() as int
}

/// A directory that was just opened and does not change meanwhile, read into buffers
/// that take at least the next record each until a read gives nothing, has given its
/// records one after the other: `.`, `..` and every child once, in order, each
/// marked as a directory or a file. Every further read gives nothing.
pub proof fn law_directory_walk(s: FsView, fd: i32, rooms: Seq<int>, room: int)
    requires
        s.nodes.dom().finite(),
        s.dir_entries(fd) is Ok,
        s.dir_entries(fd)->Ok_0.len() <= usize::MAX,
        s.fd(fd)->0.dir_cursor == 0,
        rooms.len() > 0,
        roomy(s.dir_entries(fd)->Ok_0, 0, rooms),
        walked(s, fd, s.dir_entries(fd)->Ok_0, rooms).1 == walked(
            s,
            fd,
            s.dir_entries(fd)->Ok_0,
            rooms.drop_last(),
        ).1,
    ensures
        ({
            let dir = s.fd(fd)->0.path;
            let l = s.dir_entries(fd)->Ok_0;
            let (end, bytes) = walked(s, fd, l, rooms);
            &&& is_listing(s.nodes, dir, listing(s.nodes, dir))
            &&& l == with_dots(listing(s.nodes, dir))
            &&& bytes.len() == record_start(l, l.len() as int)
            &&& forall|i: int|
                0 <= i < l.len() ==> {
                    let at = #[trigger] record_start(l, i);
                    let n = dirent_len(l[i].0);
                    &&& record_start(l, i + 1) == at + n
                    &&& bytes.subrange(at, at + n) == dirent(
                        (DIRENT_INO_BASE + i) as nat,
                        (i + 1) as nat,
                        l[i].0,
                        l[i].1,
                    )
                    &&& bytes[at + 18] == if l[i].1 {
                        4u8
                    } else {
                        8u8
                    }
                }
            &&& end.nodes == s.nodes
            &&& end.dir_entries(fd) == s.dir_entries(fd)
            &&& end.dir_read(fd, l, room) == (end, Seq::<u8>::empty())
        }),
{
    let l = s.dir_entries(fd)->Ok_0;
    let base = DIRENT_INO_BASE as nat;
    law_listing_exists(s.nodes, s.fd(fd)->0.path);
    let short = rooms.drop_last();
    let at = walk_end(l, 0, short);
    lemma_walked(s, fd, rooms);
    lemma_walked(s, fd, short);
    lemma_roomy_front(l, 0, rooms);
    law_pages_join(l, base, 0, short);
    law_pages_join(l, base, 0, rooms);
    law_fitting_progress(l, at, rooms.last());
    let to = walk_end(l, 0, rooms);
    if at < l.len() {
        law_records_join(l, base, 0, at, to);
        law_records_join(l, base, at, at + 1, to);
        lemma_one_record(l, base, at);
        assert(records(l, base, 0, to).len() > records(l, base, 0, at).len());
    }
    assert(to == l.len());
    let (end, bytes) = walked(s, fd, l, rooms);
    assert(bytes == records(l, base, 0, l.len() as int));
    assert forall|i: int| 0 <= i < l.len() implies {
        let p = #[trigger] record_start(l, i);
        let n = dirent_len(l[i].0);
        &&& record_start(l, i + 1) == p + n
        &&& bytes.subrange(p, p + n) == dirent((base + i) as nat, (i + 1) as nat, l[i].0, l[i].1)
        &&& bytes[p + 18] == if l[i].1 {
            4u8
        } else {
            8u8
        }
    } by {
        let p = record_start(l, i);
        let n = dirent_len(l[i].0);
        let rec = entry_record(l, base, i);
        lemma_one_record(l, base, i);
        law_records_join(l, base, 0, i, i + 1);
        law_records_join(l, base, 0, i + 1, l.len() as int);
        law_dirent_fields((base + i) as nat, (i + 1) as nat, l[i].0, l[i].1);
        assert(bytes == (records(l, base, 0, i) + rec) + records(l, base, i + 1, l.len() as int));
        assert(bytes.subrange(p, p + n) =~= rec);
        assert(bytes.subrange(p, p + n)[18] == bytes[p + 18]);
    }
    assert(end.fds.update(fd as int, end.fds[fd as int]) =~= end.fds);
    assert(end.dir_read(fd, l, room) == (end, Seq::<u8>::empty()));
}

/// One record, and that it is not empty.
proof fn lemma_one_record(l: Seq<(Seq<char>, bool)>, base: nat, i: int)
    requires
        0 <= i < l.len(),
    ensures
        records(l, base, i, i + 1) == entry_record(l, base, i),
        entry_record(l, base, i).len() == dirent_len(l[i].0),
        dirent_len(l[i].0) >= 20,
{
    reveal_with_fuel(records, 2);
    assert(records(l, base, i, i + 1) =~= entry_record(l, base, i));
    lemma_dirent_len((base + i) as nat, (i + 1) as nat, l[i].0, l[i].1);
}

/// Successive reads move the position of the descriptor and nothing else.
proof fn lemma_walked(s: FsView, fd: i32, rooms: Seq<int>)
    requires
        s.dir_entries(fd) is Ok,
        s.dir_entries(fd)->Ok_0.len() <= usize::MAX,
        s.fd(fd)->0.dir_cursor <= s.dir_entries(fd)->Ok_0.len(),
    ensures
        ({
            let l = s.dir_entries(fd)->Ok_0;
            let e = s.fd(fd)->0;
            let from = e.dir_cursor as int;
            let (end, bytes) = walked(s, fd, l, rooms);
            &&& end == s.with_entry(
                fd,
                FdView { dir_cursor: walk_end(l, from, rooms) as usize, ..e },
            )
            &&& end.dir_entries(fd) == s.dir_entries(fd)
            &&& bytes == walk_records(l, DIRENT_INO_BASE as nat, from, rooms)
        }),
    decreases rooms.len(),
{
    let l = s.dir_entries(fd)->Ok_0;
    let e = s.fd(fd)->0;
    let from = e.dir_cursor as int;
    let (end, bytes) = walked(s, fd, l, rooms);
    if rooms.len() == 0 {
        assert(s.fds.update(fd as int, s.fds[fd as int]) =~= s.fds);
    } else {
        let short = rooms.drop_last();
        lemma_walked(s, fd, short);
        law_pages_join(l, DIRENT_INO_BASE as nat, from, short);
        law_pages_join(l, DIRENT_INO_BASE as nat, from, rooms);
        let m = walked(s, fd, l, short).0;
        assert(end.fds =~= s.with_entry(
            fd,
            FdView { dir_cursor: walk_end(l, from, rooms) as usize, ..e },
        ).fds);
    }
}

/// Once a directory has been read to its end, further reads give nothing and stay
/// there.
pub proof fn law_end_of_directory_is_stable(
    l: Seq<(Seq<char>, bool)>,
    base: nat,
    room: int,
)
    ensures
        fitting(l, l.len() as int, room) == l.len(),
        records(l, base, l.len() as int, fitting(l, l.len() as int, room)) == Seq::<u8>::empty(),
{
}

/// A mount point holds whole names only: a path that goes on behind it with
/// anything but a slash lies elsewhere.
pub proof fn law_mount_ends_at_a_slash(root: Seq<char>, rest: Seq<char>)
    requires
        rest.len() > 0,
        rest[0] != '/',
    ensures
        !under_mount(trim_slashes(root) + rest, root),
{
    let prefix = trim_slashes(root);
    let abs = prefix + rest;
    assert(abs[prefix.len() as int] == rest[0]);
    if starts_with(abs, prefix.push('/')) {
        assert(abs.take(prefix.len() as int + 1)[prefix.len() as int] == '/');
    }
    assert(abs.len() > prefix.len());
}

/// What a canonical guest path names below its mount point is made of plain names:
/// it holds no `..` that could lead out of the mounted directory.
pub proof fn law_path_stays_below_mount(abs: Seq<char>, root: Seq<char>, child: Seq<char>)
    requires
        is_canonical(abs),
        abs != seq!['/'],
        under_mount(abs, root),
        below_mount(abs, root) == Some(child),
    ensures
        plain_names(split_on(child, '/')),
{
    let prefix = trim_slashes(root);
    let parts = choose|parts: Seq<Seq<char>>| #[trigger]
        plain_names(parts) && abs == render(parts);
    assert(abs == slashed(parts));
    lemma_split_slashed(parts);
    assert(starts_with(abs, prefix.push('/')));
    assert(abs =~= prefix.push('/') + child);
    lemma_split_join(prefix, '/', child);
    lemma_split_nonempty(prefix, '/');
    let before = split_on(prefix, '/');
    let pieces = split_on(child, '/');
    let all = seq![Seq::<char>::empty()] + parts;
    assert(before + pieces == all);
    assert forall|i: int| 0 <= i < pieces.len() implies plain_name(#[trigger] pieces[i]) by {
        assert((before + pieces)[before.len() + i] == pieces[i]);
        assert(all[before.len() + i] == parts[before.len() + i - 1]);
    }
}

/// A number stands for a file, a socket or a pipe, never for two of them, as long
/// as the files keep below the sockets and the sockets below the pipes.
pub proof fn law_descriptors_do_not_alias(
    files: FsView,
    sockets: SocketView,
    pipes: ProcessView,
    fd: i32,
)
    requires
        files.fds.len() <= SOCK_FD_BASE,
        sockets.fresh(),
        sockets.next_fd <= PIPE_FD_BASE,
        pipes.fresh(),
    ensures
        files.fd(fd) is Some ==> !sockets.kinds.contains_key(fd) && !pipes.pipes.contains_key(fd),
        sockets.kinds.contains_key(fd) ==> !pipes.pipes.contains_key(fd),
{
}

/// A read gives the bytes of the file from where the descriptor stands on, as many as
/// are asked for or are left, and moves the descriptor behind them. Nothing else
/// changes.
pub proof fn law_read_gives_next_bytes(s: FsView, fd: i32, room: int, other: i32)
    requires
        0 <= room,
        s.fd_file(fd) is Ok,
        s.fd_file(fd)->Ok_0.len() <= u64::MAX,
        other != fd,
    ensures
        ({
            let data = s.fd_file(fd)->Ok_0;
            let at = s.fd(fd)->0.offset;
            let (t, got) = s.read_on(fd, room);
            let bytes = got->Ok_0;
            &&& got is Ok
            &&& at >= data.len() ==> bytes.len() == 0
            &&& at < data.len() && room <= data.len() - at ==> bytes.len() == room
            &&& at < data.len() && room > data.len() - at ==> bytes.len() == data.len() - at
            &&& forall|i: int| 0 <= i < bytes.len() ==> #[trigger] bytes[i] == data[at + i]
            &&& t.fd(fd) is Some
            &&& t.fd(fd)->0.offset == at + bytes.len()
            &&& t.fd(fd)->0.path == s.fd(fd)->0.path
            &&& t.fd(other) == s.fd(other)
            &&& t.nodes == s.nodes
        }),
{
}

/// Reading twice gives, joined, what reading once into the room of both gives, and
/// leaves the descriptor at the same place.
pub proof fn law_reads_join(s: FsView, fd: i32, a: int, b: int)
    requires
        0 <= a,
        0 <= b,
        s.fd_file(fd) is Ok,
        s.fd_file(fd)->Ok_0.len() <= u64::MAX,
    ensures
        ({
            let (t, first) = s.read_on(fd, a);
            let (u, second) = t.read_on(fd, b);
            let (v, whole) = s.read_on(fd, a + b);
            &&& first is Ok && second is Ok && whole is Ok
            &&& first->Ok_0 + second->Ok_0 == whole->Ok_0
            &&& u == v
        }),
{
    let data = s.fd_file(fd)->Ok_0;
    let (t, first) = s.read_on(fd, a);
    let (u, second) = t.read_on(fd, b);
    let (v, whole) = s.read_on(fd, a + b);
    assert(t.fd_file(fd) == s.fd_file(fd));
    assert(first->Ok_0 + second->Ok_0 =~= whole->Ok_0);
    assert(u.fds =~= v.fds);
}

/// A write goes behind all that the file holds, and moves the descriptor by what was
/// written, which is what the guest gets. Other files and other descriptors are as
/// they were.
pub proof fn law_write_goes_to_the_end(
    s: FsView,
    fd: i32,
    data: Seq<u8>,
    other: i32,
    path: Seq<char>,
)
    requires
        s.fd_file(fd) is Ok,
        data.len() <= i32::MAX,
        s.fd(fd)->0.offset + data.len() <= u64::MAX,
        other != fd,
        path != s.fd(fd)->0.path,
    ensures
        ({
            let file = s.fd_file(fd)->Ok_0;
            let (t, r) = s.appended(fd, data);
            &&& r == data.len()
            &&& t.fd_file(fd) == Ok::<Seq<u8>, i32>(file + data)
            &&& t.fd(fd)->0.offset == s.fd(fd)->0.offset + data.len()
            &&& t.fd(fd)->0.path == s.fd(fd)->0.path
            &&& t.fd(other) == s.fd(other)
            &&& t.nodes.contains_key(path) == s.nodes.contains_key(path)
            &&& t.nodes.contains_key(path) ==> t.nodes[path] == s.nodes[path]
        }),
{
}

/// Two writes are one write of both pieces of data.
pub proof fn law_writes_join(s: FsView, fd: i32, a: Seq<u8>, b: Seq<u8>)
    requires
        s.fd_file(fd) is Ok,
        s.fd(fd)->0.offset + a.len() + b.len() <= u64::MAX,
    ensures
        s.appended(fd, a).0.appended(fd, b).0 == s.appended(fd, a + b).0,
{
    let file = s.fd_file(fd)->Ok_0;
    let t = s.appended(fd, a).0;
    let u = t.appended(fd, b).0;
    let v = s.appended(fd, a + b).0;
    assert(t.fd_file(fd) == Ok::<Seq<u8>, i32>(file + a));
    assert((file + a) + b =~= file + (a + b));
    assert(u.fds =~= v.fds);
    assert(u.nodes =~= v.nodes);
}

/// A positioned write leaves every descriptor where it is. The file reaches as far as
/// it did, or as far as what was written, whichever is more; what was written stands
/// at its place, and a gap before it is filled with zeros.
pub proof fn law_pwrite_patches(
    s: FsView,
    fd: i32,
    src: Seq<u8>,
    offset: u64,
    path: Seq<char>,
    i: int,
)
    requires
        s.fd_file(fd) is Ok,
        src.len() <= i32::MAX,
        path != s.fd(fd)->0.path,
        0 <= i,
    ensures
        ({
            let data = s.fd_file(fd)->Ok_0;
            let (t, r) = s.patched(fd, src, offset);
            let now = t.fd_file(fd)->Ok_0;
            &&& r == src.len()
            &&& t.fds == s.fds
            &&& t.fd_file(fd) is Ok
            &&& data.len() >= offset + src.len() ==> now.len() == data.len()
            &&& data.len() < offset + src.len() ==> now.len() == offset + src.len()
            &&& i < now.len() ==> now[i] == if offset <= i < offset + src.len() {
                src[i - offset]
            } else if i < data.len() {
                data[i]
            } else {
                0u8
            }
            &&& t.nodes.contains_key(path) == s.nodes.contains_key(path)
            &&& t.nodes.contains_key(path) ==> t.nodes[path] == s.nodes[path]
        }),
{
}

/// A descriptor that is not open cannot be read or written (`EBADF`), nor one whose
/// file is gone (`ENOENT`) or which stands for a directory (`EISDIR`), and trying to
/// changes nothing.
pub proof fn law_only_files_are_read_and_written(
    s: FsView,
    fd: i32,
    room: int,
    data: Seq<u8>,
    offset: u64,
)
    ensures
        ({
            let e = match s.fd(fd) {
                None => -9int,
                Some(d) => if !s.nodes.contains_key(d.path) {
                    -2
                } else if s.nodes[d.path] is Dir {
                    -21
                } else {
                    0
                },
            };
            e != 0 ==> {
                &&& s.read_on(fd, room).0 == s && (s.read_on(fd, room).1 matches Err(v) && v == e)
                &&& s.appended(fd, data).0 == s && s.appended(fd, data).1 == e
                &&& s.patched(fd, data, offset).0 == s && s.patched(fd, data, offset).1 == e
            }
        }),
{
}

/// A seek counts from the start of the file, from where the descriptor stands, or from
/// the end of the file. It tells the new place, moves the descriptor there and changes
/// nothing else. A place before the start and an unknown origin are `EINVAL`, and
/// change nothing.
pub proof fn law_seek_moves(s: FsView, fd: i32, offset: i64, whence: i32, other: i32)
    requires
        s.fd(fd) is Some,
        s.fd(fd)->0.offset <= i64::MAX,
        s.fd_size(fd) <= i64::MAX,
        other != fd,
    ensures
        ({
            let (t, r) = s.sought(fd, offset, whence);
            let from = if whence == 0 {
                0int
            } else if whence == 1 {
                s.fd(fd)->0.offset as int
            } else {
                s.fd_size(fd) as int
            };
            let to = from + offset;
            &&& !(0 <= whence <= 2) || to < 0 ==> r == -22 && t == s
            &&& 0 <= whence <= 2 && 0 <= to <= i64::MAX ==> {
                &&& r == to
                &&& t.fd(fd) is Some
                &&& t.fd(fd)->0.offset == to
                &&& t.fd(fd)->0.path == s.fd(fd)->0.path
                &&& t.fd(other) == s.fd(other)
                &&& t.nodes == s.nodes
            }
        }),
{
}

/// What a seek from the start tells, a seek by nothing from there tells again, and the
/// next read begins there.
pub proof fn law_read_begins_where_sought(s: FsView, fd: i32, at: u64, room: int)
    requires
        s.fd_file(fd) is Ok,
        at <= i64::MAX,
    ensures
        ({
            let t = s.sought(fd, at as i64, 0).0;
            &&& t.sought(fd, 0, 1).1 == at
            &&& t.sought(fd, 0, 1).0 == t
            &&& t.read_on(fd, room).1 == Ok::<Seq<u8>, i32>(
                read_slice(s.fd_file(fd)->Ok_0, at, room),
            )
        }),
{
    let t = s.sought(fd, at as i64, 0).0;
    assert(at as i64 as u64 == at);
    assert(t.sought(fd, 0, 1).0.fds =~= t.fds);
}

/// Closing an open descriptor above stderr gives 0, and it is not open any more; every
/// other one, and every node, is as it was. Any other descriptor is `EBADF`. Closing
/// twice is `EBADF` the second time.
pub proof fn law_close_releases(s: FsView, fd: i32, other: i32)
    requires
        other != fd,
    ensures
        ({
            let (t, r) = s.closed(fd);
            &&& fd < 3 || s.fd(fd) is None ==> r == -9 && t == s
            &&& fd >= 3 && s.fd(fd) is Some ==> {
                &&& r == 0
                &&& t.fd(fd) is None
                &&& !t.host_fds.contains(fd)
                &&& t.fd(other) == s.fd(other)
                &&& t.host_fds.contains(other) == s.host_fds.contains(other)
                &&& t.nodes == s.nodes
                &&& t.closed(fd).1 == -9
            }
        }),
{
}

/// Closing in bulk closes what closing does, but for a host file, which stays open as
/// it is unless its path ends with `-journal`.
pub proof fn law_bulk_close_spares_host_files(s: FsView, fd: i32, head: Seq<char>)
    requires
        fd >= 3,
        s.fd(fd) is Some,
    ensures
        !s.host_fds.contains(fd) ==> s.bulk_closed(fd) == s.closed(fd),
        s.fd(fd)->0.path == head + "-journal"@ ==> s.bulk_closed(fd) == s.closed(fd),
        s.host_fds.contains(fd) && s.bulk_closed(fd).0 != s ==> s.fd(fd)->0.path.len() >= 8 && s.fd(
            fd,
        )->0.path.skip(s.fd(fd)->0.path.len() - 8) == "-journal"@,
        s.bulk_closed(fd).1 == 0,
{
    reveal_strlit("-journal");
    let path = s.fd(fd)->0.path;
    if path == head + "-journal"@ {
        assert(path.skip(path.len() - 8) =~= "-journal"@);
    }
}

/// The next descriptor is the lowest number above stderr that can be used again: no
/// lower one is free.
pub proof fn law_lowest_descriptor_is_taken(s: FsView, k: int)
    requires
        3 <= s.fds.len(),
        3 <= k < s.next_fd(),
    ensures
        3 <= s.next_fd() <= s.fds.len(),
        s.fds[k] is Some || s.host_fds.contains(k as i32),
{
    lemma_next_fd(s, 3);
    assert(!s.free_slot(k));
}

/// What opening does to the node: one that is missing is `ENOENT` unless bit 64 of the
/// flags asks to create it, and is then an empty file. A directory is `EISDIR` with bit
/// 1 or 2, which ask to write. A file keeps its contents unless bit 512 asks to
/// truncate it along with one of those.
pub proof fn law_open_effects(s: FsView, p: Seq<char>, flags: i32)
    requires
        3 <= s.fds.len() <= i32::MAX,
        is_canonical(p),
    ensures
        ({
            let (t, fd) = s.opened(p, flags);
            let writes = flags & 1 != 0 || flags & 2 != 0;
            let creates = flags & 64 != 0;
            let truncates = flags & 512 != 0;
            &&& !s.nodes.contains_key(p) && !creates ==> fd == -2 && t == s
            &&& !s.nodes.contains_key(p) && creates ==> {
                &&& fd >= 3
                &&& t.nodes.contains_key(p)
                &&& t.nodes[p] == NodeView::File(Seq::empty())
            }
            &&& s.nodes.contains_key(p) && s.nodes[p] is Dir && writes ==> fd == -21 && t == s
            &&& s.nodes.contains_key(p) && s.nodes[p] is Dir && !writes ==> fd >= 3 && t.nodes
                == s.nodes
            &&& s.nodes.contains_key(p) && s.nodes[p] is File ==> {
                &&& fd >= 3
                &&& !(writes && truncates) ==> t.nodes == s.nodes
                &&& writes && truncates ==> t.nodes == s.nodes.insert(
                    p,
                    NodeView::File(Seq::empty()),
                )
            }
            &&& fd >= 0 ==> t.fd(fd) is Some && t.fd(fd)->0.path == p && t.fd(fd)->0.offset == 0
        }),
{
    law_canonical_fixes_canonical(p);
    lemma_next_fd(s, 3);
    let (t, fd) = s.opened(p, flags);
    if fd >= 0 {
        lemma_next_fd_nodes(s, t.nodes, 3);
    }
}

/// What is written through a descriptor is read through another one that is opened
/// on the same path afterwards.
pub proof fn law_written_file_is_opened(s: FsView, p: Seq<char>, data: Seq<u8>, room: int)
    requires
        3 <= s.fds.len() < i32::MAX,
        is_canonical(p),
        p != seq!['/'],
        !s.nodes.contains_key(p),
        data.len() <= i32::MAX,
        room >= data.len(),
    ensures
        ({
            let (t, fd) = s.opened(p, 64);
            let u = t.appended(fd, data).0;
            let (v, again) = u.opened(p, 0);
            &&& fd >= 3
            &&& again >= 3
            &&& again != fd
            &&& v.read_on(again, room).1 == Ok::<Seq<u8>, i32>(data)
        }),
{
    assert(64i32 & 64 != 0) by (bit_vector);
    assert(0i32 & 1 == 0 && 0i32 & 2 == 0 && 64i32 & 512 == 0) by (bit_vector);
    law_open_effects(s, p, 64);
    law_open_is_fresh(s, p, 64, 0);
    law_canonical_fixes_canonical(p);
    let (t, fd) = s.opened(p, 64);
    let u = t.appended(fd, data).0;
    assert(Seq::<u8>::empty() + data =~= data);
    assert(u.nodes[p] == NodeView::File(data));
    let made = s.with_nodes(t.nodes);
    lemma_next_fd_nodes(s, t.nodes, 3);
    lemma_next_fd(s, 3);
    assert(t == made.with_fd(p));
    assert(t.fds.len() <= s.fds.len() + 1);
    law_open_effects(u, p, 0);
    law_open_is_fresh(u, p, 0, fd);
    let (v, again) = u.opened(p, 0);
    assert(v.fd_file(again) == Ok::<Seq<u8>, i32>(data));
    law_whole_file_reads_back(data, room);
}

/// A node that is removed is gone, and no other one is. A missing node is `ENOENT`, and
/// the root, which stays, `EISDIR`. Descriptors are left alone.
pub proof fn law_unlink_removes(s: FsView, p: Seq<char>, other: Seq<char>)
    requires
        other != p,
    ensures
        ({
            let (t, r) = s.unlinked(p);
            &&& p == seq!['/'] ==> r == -21 && t == s
            &&& p != seq!['/'] && !s.nodes.contains_key(p) ==> r == -2 && t == s
            &&& p != seq!['/'] && s.nodes.contains_key(p) ==> {
                &&& r == 0
                &&& !t.nodes.contains_key(p)
                &&& t.nodes.contains_key(other) == s.nodes.contains_key(other)
                &&& t.nodes.contains_key(other) ==> t.nodes[other] == s.nodes[other]
                &&& t.fds == s.fds
                &&& t.unlinked(p).1 == -2
            }
        }),
{
}

/// Inode numbers count up and are never 0; handing one out changes nothing else.
pub proof fn law_inode_numbers_count_up(s: FsView)
    requires
        s.next_ino > 0,
    ensures
        ({
            let t = s.with_next_ino();
            &&& t.next_ino > 0
            &&& t.next_ino != s.next_ino
            &&& s.next_ino < u64::MAX ==> t.next_ino == s.next_ino + 1
            &&& t.nodes == s.nodes && t.fds == s.fds && t.host_fds == s.host_fds
        }),
{
}

/// A trimmed path does not end with a slash, and is the path but for slashes at its
/// end.
pub proof fn law_trimmed_has_no_slash(s: Seq<char>)
    ensures
        ({
            let t = trim_slashes(s);
            &&& t.len() > 0 ==> t.last() != '/'
            &&& t.len() <= s.len()
            &&& t == s.take(t.len() as int)
            &&& forall|i: int| t.len() <= i < s.len() ==> #[trigger] s[i] == '/'
        }),
    decreases s.len(),
{
    if s.len() > 0 && s.last() == '/' {
        law_trimmed_has_no_slash(s.drop_last());
        let t = trim_slashes(s);
        assert(t =~= s.take(t.len() as int));
        assert forall|i: int| t.len() <= i < s.len() implies #[trigger] s[i] == '/' by {
            if i < s.len() - 1 {
                assert(s.drop_last()[i] == s[i]);
            }
        }
    } else {
        assert(s =~= s.take(s.len() as int));
    }
}

/// The mount point that holds a path is the first one listed, from `i` on, that the path
/// is, slashes at the end of the mount point aside, or that it goes on behind with a
/// slash.
pub proof fn law_first_mount_holds(abs: Seq<char>, roots: Seq<Seq<char>>, i: int)
    requires
        0 <= i,
    ensures
        match mount_from(abs, roots, i) {
            Some(k) => {
                &&& i <= k < roots.len()
                &&& goes_on_behind(abs, trim_slashes(roots[k]))
                &&& forall|j: int|
                    i <= j < k ==> !goes_on_behind(abs, trim_slashes(#[trigger] roots[j]))
            },
            None => forall|j: int|
                i <= j < roots.len() ==> !goes_on_behind(abs, trim_slashes(#[trigger] roots[j])),
        },
    decreases roots.len() - i,
{
    if i < roots.len() {
        let prefix = trim_slashes(roots[i]);
        assert(under_mount(abs, roots[i]) <==> goes_on_behind(abs, prefix)) by {
            if abs.len() > prefix.len() {
                let k = prefix.len() as int;
                assert(abs.take(k + 1) =~= abs.take(k).push(abs[k]));
                assert(prefix.push('/').drop_last() =~= prefix);
                assert(abs.take(k + 1).drop_last() =~= abs.take(k));
                assert(prefix.push('/').last() == '/' && abs.take(k + 1).last() == abs[k]);
            }
        }
        if !under_mount(abs, roots[i]) {
            law_first_mount_holds(abs, roots, i + 1);
        }
    }
}

/// Whether `abs` is `prefix`, or begins with it and a slash.
pub open spec fn goes_on_behind(abs: Seq<char>, prefix: Seq<char>) -> bool {
    abs == prefix || (abs.len() > prefix.len() && abs.take(prefix.len() as int) == prefix
        && abs[prefix.len() as int] == '/')
}

/// Where a guest path lives on the host: the mount point, a slash and the path below it
/// make the guest path again, and the mount point itself has no path below it.
pub proof fn law_host_path_denotes(h: HostPath, abs: Seq<char>, roots: Seq<Seq<char>>)
    requires
        h.denotes(abs, roots),
    ensures
        h.root < roots.len(),
        h.child is None ==> abs == trim_slashes(roots[h.root as int]),
        h.child matches Some(c) ==> abs == trim_slashes(roots[h.root as int]) + seq!['/'] + c@,
        mount_of(abs, roots) == Some(h.root as int),
{
    law_first_mount_holds(abs, roots, 0);
    let prefix = trim_slashes(roots[h.root as int]);
    if h.child is Some {
        let child = abs.skip(prefix.len() as int + 1);
        assert(abs != prefix);
        assert(abs =~= prefix + seq!['/'] + child);
    }
}

/// An absolute path means the same whatever it is taken relative to. A plain name means
/// the child of that name, `.` and the empty path the base itself, and `..` its parent,
/// or the root.
pub proof fn law_paths_resolve(base: Seq<Seq<char>>, other: Seq<char>, path: Seq<char>, name: Seq<char>)
    requires
        plain_names(base),
        plain_name(name),
        path.len() > 0,
        path[0] == '/',
    ensures
        ({
            let dir = render(base);
            &&& resolved(other, path) == resolved(dir, path)
            &&& resolved(dir, path) == canonical(path)
            &&& name[0] != '/'
            &&& resolved(dir, name) == child_path(dir, name)
            &&& resolved(dir, Seq::empty()) == dir
            &&& resolved(dir, seq!['.']) == dir
            &&& resolved(dir, seq!['.', '.']) == match parent(dir) {
                Some(up) => up,
                None => dir,
            }
        }),
{
    let dir = render(base);
    law_names_of_render(base);
    law_path_steps(dir, name);
    law_render_steps(base, name);
    law_parent_of_canonical(base);
    assert(dir.push('/') + Seq::<char>::empty() =~= dir.push('/'));
    assert(dir.push('/') + seq!['.'] =~= dir.push('/').push('.'));
    assert(dir.push('/') + seq!['.', '.'] =~= dir.push('/').push('.').push('.'));
    assert(name.contains(name[0]));
    let joined = dir.push('/') + name;
    assert(resolved(dir, name) == render(base.push(name)));
    if base.len() == 0 {
        assert(dir == seq!['/']);
    } else {
        assert(plain_name(base[0]));
        assert(dir != seq!['/']) by {
            lemma_split_slashed(base);
            if dir == seq!['/'] {
                law_path_steps(Seq::empty(), name);
                law_names_of_render(Seq::<Seq<char>>::empty());
                assert(render(Seq::<Seq<char>>::empty()) == dir);
                assert(names(dir) == base);
                assert(names(dir).len() == 0);
            }
        }
        assert(render(base) + seq!['/'] + name =~= dir.push('/') + name);
    }
    if base.len() == 0 {
        assert(names(dir).len() == 0);
        assert(render(names(dir.push('/').push('.').push('.'))) == seq!['/']);
    }
}

/// The `struct stat` of a node tells the mode 0100755 of a file or 040755 of a directory,
/// the size of the file, and a fresh inode number, at their offsets.
pub proof fn law_stat_tells_node(s: FsView, p: Seq<char>)
    requires
        s.nodes.contains_key(p),
        s.nodes[p] matches NodeView::File(data) ==> data.len() <= u64::MAX,
    ensures
        ({
            let rec = s.stat_of(p);
            &&& rec.len() == 96
            &&& word_at(rec, 0) == 1
            &&& word_at(rec, 4) == match s.nodes[p] {
                NodeView::File(_) => 0o100755nat,
                NodeView::Dir => 0o040755nat,
            }
            &&& word_at(rec, 8) == 1
            &&& le_value(rec.subrange(24, 32)) == match s.nodes[p] {
                NodeView::File(data) => data.len(),
                NodeView::Dir => 0nat,
            }
            &&& word_at(rec, 32) == 4096
            &&& le_value(rec.subrange(88, 96)) == s.next_ino
        }),
{
    reveal_with_fuel(le_limit, 9);
    let size = node_size(s.nodes[p]);
    let mode = node_mode(s.nodes[p]) as nat;
    law_stat_fields(s.next_ino as nat, mode, size);
    law_le_round_trip(1, 4);
    law_le_round_trip(mode, 4);
    law_le_round_trip(4096, 4);
    law_le_round_trip(size, 8);
    law_le_round_trip(s.next_ino as nat, 8);
}

/// A positioned read gives the bytes of the file from `offset` on, as many as are asked
/// for or are there: what a read gives whose descriptor stands there.
pub proof fn law_pread_gives_bytes_at_offset(s: FsView, fd: i32, offset: u64, room: int)
    requires
        0 <= room,
        s.fd_file(fd) is Ok,
    ensures
        ({
            let data = s.fd_file(fd)->Ok_0;
            let bytes = s.read_from(fd, offset, room)->Ok_0;
            &&& s.read_from(fd, offset, room) is Ok
            &&& offset >= data.len() ==> bytes.len() == 0
            &&& offset < data.len() && room <= data.len() - offset ==> bytes.len() == room
            &&& offset < data.len() && room > data.len() - offset ==> bytes.len() == data.len()
                - offset
            &&& forall|i: int| 0 <= i < bytes.len() ==> #[trigger] bytes[i] == data[offset + i]
            &&& s.with_offset(fd, offset).read_on(fd, room).1 == s.read_from(fd, offset, room)
        }),
{
}

/// A host file that was opened has a descriptor that was not open, on its guest path, and
/// is host-backed; a host directory has one that is not. A host path that was refused, or
/// could not be opened, has none and changes nothing.
pub proof fn law_host_open_is_fresh(s: FsView, path: Seq<char>, outcome: HostOpened, other: i32)
    requires
        3 <= s.fds.len() <= i32::MAX,
    ensures
        ({
            let (t, fd) = s.host_opened(path, outcome);
            &&& outcome matches HostOpened::Refused(e) ==> fd == e && t == s
            &&& outcome matches HostOpened::Failed(kind) ==> fd == errno_of(kind) && fd < 0 && t == s
            &&& outcome == HostOpened::File || outcome == HostOpened::Directory ==> {
                &&& fd >= 3
                &&& s.fd(fd) is None
                &&& t.fd(fd) is Some
                &&& t.fd(fd)->0.path == path
                &&& t.fd(fd)->0.dir_cursor == 0
                &&& outcome == HostOpened::File ==> t.host_fds.contains(fd)
                &&& outcome == HostOpened::Directory ==> t.host_fds == s.host_fds
                &&& other != fd ==> t.fd(other) == s.fd(other)
                &&& t.nodes == s.nodes
            }
        }),
{
    lemma_next_fd(s, 3);
}

/// Closing a host-backed descriptor leaves it neither open nor host-backed, and the
/// others as they were; any other descriptor is not touched.
pub proof fn law_host_close_releases(s: FsView, fd: i32, other: i32)
    requires
        other != fd,
    ensures
        ({
            let (t, r) = s.host_closed(fd);
            &&& !s.host_fds.contains(fd) ==> r is None && t == s
            &&& s.host_fds.contains(fd) ==> {
                &&& r == Some(0i32)
                &&& t.fd(fd) is None
                &&& !t.host_fds.contains(fd)
                &&& t.fd(other) == s.fd(other)
                &&& t.host_fds.contains(other) == s.host_fds.contains(other)
                &&& t.nodes == s.nodes
            }
        }),
{
}

/// What was read through a directory descriptor is counted, and read on from there;
/// descriptors of files have no such count.
pub proof fn law_directory_place_advances(s: FsView, fd: i32, count: usize)
    requires
        s.fd(fd) is Some,
    ensures
        ({
            let t = s.advanced(fd, count);
            &&& s.host_fds.contains(fd) || s.fd_file(fd) is Ok ==> t == s && s.dir_position(fd) == 0
            &&& !(s.host_fds.contains(fd) || s.fd_file(fd) is Ok) && s.dir_position(fd) + count
                <= usize::MAX ==> {
                &&& t.dir_position(fd) == s.dir_position(fd) + count
                &&& t.nodes == s.nodes
                &&& t.fd(fd)->0.path == s.fd(fd)->0.path
            }
        }),
{
}

/// The `struct stat` of a host file has the file's own inode number, the mode 0100755 and
/// its length; that of a host directory the mode 040755 and no length.
pub proof fn law_host_stat_tells(meta: HostMeta)
    ensures
        ({
            let rec = meta.record();
            &&& rec.len() == 96
            &&& le_value(rec.subrange(88, 96)) == meta.ino
            &&& word_at(rec, 4) == if meta.is_dir {
                0o040755nat
            } else {
                0o100755nat
            }
            &&& le_value(rec.subrange(24, 32)) == if meta.is_dir {
                0nat
            } else {
                meta.len as nat
            }
        }),
{
    reveal_with_fuel(le_limit, 9);
    let mode = if meta.is_dir {
        0o040755nat
    } else {
        0o100755nat
    };
    let size = if meta.is_dir {
        0nat
    } else {
        meta.len as nat
    };
    law_stat_fields(meta.ino as nat, mode, size);
    law_le_round_trip(mode, 4);
    law_le_round_trip(size, 8);
    law_le_round_trip(meta.ino as nat, 8);
}

/// A directory is read through `.` and `..` and then its listing. What is not open, or
/// gone, is `EBADF`, and a file `ENOTDIR`.
pub proof fn law_only_directories_are_listed(s: FsView, fd: i32)
    ensures
        match s.fd(fd) {
            None => s.dir_entries(fd) matches Err(e) && e == -9,
            Some(d) => if !s.nodes.contains_key(d.path) {
                s.dir_entries(fd) matches Err(e) && e == -9
            } else if s.nodes[d.path] is File {
                s.dir_entries(fd) matches Err(e) && e == -20
            } else {
                s.dir_entries(fd) matches Ok(l) && l == with_dots(listing(s.nodes, d.path))
            },
        },
{
}

} // verus!
