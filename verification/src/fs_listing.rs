//! Directory listings: which names a directory holds, in which order, and how
//! they are cut into `getdents64` records.

use vstd::prelude::*;

use crate::bytes::{lemma_low_8, lemma_splice_append, splice};
use crate::emscripten_fs::NodeView;
use crate::fs_records::{dirent, dirent_len, lemma_dirent_len, write_dirent64};
use crate::text::{
    before, lemma_text_before_irreflexive, lemma_text_before_total, lemma_text_before_transitive,
    text_before,
};

verus! {

/// What a path inside the directory `dir` begins with.
pub open spec fn dir_prefix(dir: Seq<char>) -> Seq<char> {
    if dir == seq!['/'] {
        dir
    } else {
        dir.push('/')
    }
}

/// The path of `name` inside the directory `dir`.
pub open spec fn child_path(dir: Seq<char>, name: Seq<char>) -> Seq<char> {
    dir_prefix(dir) + name
}

/// Whether the directory `dir` directly holds a node called `name`.
pub open spec fn is_child(
    nodes: Map<Seq<char>, NodeView>,
    dir: Seq<char>,
    name: Seq<char>,
) -> bool {
    &&& !name.contains('/')
    &&& child_path(dir, name) != dir
    &&& nodes.contains_key(child_path(dir, name))
}

/// Names in strictly increasing order.
pub open spec fn sorted_names(l: Seq<(Seq<char>, bool)>) -> bool {
    forall|i: int, j: int|
        0 <= i < j < l.len() ==> text_before((#[trigger] l[i]).0, (#[trigger] l[j]).0)
}

/// Whether `name` is among the names of `l`.
pub open spec fn listed(l: Seq<(Seq<char>, bool)>, name: Seq<char>) -> bool {
    exists|i: int| 0 <= i < l.len() && (#[trigger] l[i]).0 == name
}

/// `l` lists the directory `dir`: every direct child once, in order, each with
/// whether it is a directory.
pub open spec fn is_listing(
    nodes: Map<Seq<char>, NodeView>,
    dir: Seq<char>,
    l: Seq<(Seq<char>, bool)>,
) -> bool {
    &&& sorted_names(l)
    &&& forall|i: int|
        0 <= i < l.len() ==> is_child(nodes, dir, (#[trigger] l[i]).0) && l[i].1 == (
        nodes[child_path(dir, l[i].0)] is Dir)
    &&& forall|name: Seq<char>| #[trigger] is_child(nodes, dir, name) ==> listed(l, name)
}

/// The listing of the directory `dir`.
pub open spec fn listing(
    nodes: Map<Seq<char>, NodeView>,
    dir: Seq<char>,
) -> Seq<(Seq<char>, bool)> {
    choose|l: Seq<(Seq<char>, bool)>| is_listing(nodes, dir, l)
}

/// What `getdents64` walks through: `.`, `..` and the listing.
pub open spec fn with_dots(l: Seq<(Seq<char>, bool)>) -> Seq<(Seq<char>, bool)> {
    seq![(seq!['.'], true), (seq!['.', '.'], true)] + l
}

/// The record of entry `i`: inode numbers count up from `base`, and the cookie
/// is the index of the next entry.
pub open spec fn entry_record(l: Seq<(Seq<char>, bool)>, base: nat, i: int) -> Seq<u8> {
    dirent((base + i) as nat, (i + 1) as nat, l[i].0, l[i].1)
}

/// The records of entries `from` to `to`.
pub open spec fn records(l: Seq<(Seq<char>, bool)>, base: nat, from: int, to: int) -> Seq<u8>
    decreases to - from,
{
    if from >= to {
        Seq::empty()
    } else {
        records(l, base, from, to - 1) + entry_record(l, base, to - 1)
    }
}

/// The index after the last entry, from `from` on, that still fits in `room`
/// bytes.
pub open spec fn fitting(l: Seq<(Seq<char>, bool)>, from: int, room: int) -> int
    decreases l.len() - from,
{
    if from >= l.len() || dirent_len(l[from].0) > room {
        from
    } else {
        fitting(l, from + 1, room - dirent_len(l[from].0))
    }
}

/// The texts of a vector of named entries.
pub open spec fn entry_texts(v: Seq<(Vec<char>, bool)>) -> Seq<(Seq<char>, bool)> {
    Seq::new(v.len(), |i: int| (v[i].0@, v[i].1))
}

/// The texts of a vector of named entries.
pub open spec fn entry_views(v: Seq<(String, bool)>) -> Seq<(Seq<char>, bool)> {
    Seq::new(v.len(), |i: int| (v[i].0@, v[i].1))
}

/// The first `k` entries of `a` are those of `b`.
spec fn agree_until(a: Seq<(Seq<char>, bool)>, b: Seq<(Seq<char>, bool)>, k: int) -> bool {
    forall|i: int|
        0 <= i < k ==> i < b.len() && (#[trigger] a[i]).0 == b[i].0 && a[i].1 == b[i].1
}

proof fn lemma_listing_step(
    nodes: Map<Seq<char>, NodeView>,
    dir: Seq<char>,
    a: Seq<(Seq<char>, bool)>,
    b: Seq<(Seq<char>, bool)>,
    k: int,
)
    requires
        is_listing(nodes, dir, a),
        is_listing(nodes, dir, b),
        0 <= k < a.len(),
        agree_until(a, b, k),
    ensures
        k < b.len(),
        a[k].0 == b[k].0,
        a[k].1 == b[k].1,
{
    assert(is_child(nodes, dir, a[k].0));
    assert(listed(b, a[k].0));
    let j = choose|j: int| 0 <= j < b.len() && (#[trigger] b[j]).0 == a[k].0;
    if j < k {
        assert(a[j].0 == b[j].0);
        assert(text_before(a[j].0, a[k].0));
        lemma_text_before_irreflexive(a[k].0);
    }
    assert(is_child(nodes, dir, b[k].0));
    assert(listed(a, b[k].0));
    let m = choose|m: int| 0 <= m < a.len() && (#[trigger] a[m]).0 == b[k].0;
    if m < k {
        assert(a[m].0 == b[m].0);
        assert(text_before(b[m].0, b[k].0));
        lemma_text_before_irreflexive(b[k].0);
    }
    if j > k {
        assert(text_before(b[k].0, b[j].0));
        if m > k {
            assert(text_before(a[k].0, a[m].0));
            lemma_text_before_transitive(a[k].0, b[k].0, a[k].0);
        }
        lemma_text_before_irreflexive(a[k].0);
    }
}

proof fn lemma_listing_prefix(
    nodes: Map<Seq<char>, NodeView>,
    dir: Seq<char>,
    a: Seq<(Seq<char>, bool)>,
    b: Seq<(Seq<char>, bool)>,
    k: int,
)
    requires
        is_listing(nodes, dir, a),
        is_listing(nodes, dir, b),
        0 <= k <= a.len(),
    ensures
        agree_until(a, b, k),
    decreases k,
{
    if k > 0 {
        lemma_listing_prefix(nodes, dir, a, b, k - 1);
        lemma_listing_step(nodes, dir, a, b, k - 1);
    }
}

/// A directory has one listing.
pub proof fn law_listing_unique(
    nodes: Map<Seq<char>, NodeView>,
    dir: Seq<char>,
    a: Seq<(Seq<char>, bool)>,
    b: Seq<(Seq<char>, bool)>,
)
    requires
        is_listing(nodes, dir, a),
        is_listing(nodes, dir, b),
    ensures
        a == b,
{
    lemma_listing_prefix(nodes, dir, a, b, a.len() as int);
    lemma_listing_prefix(nodes, dir, b, a, b.len() as int);
    if a.len() > 0 {
        assert(a[a.len() - 1].0 == b[a.len() - 1].0);
    }
    if b.len() > 0 {
        assert(b[b.len() - 1].0 == a[b.len() - 1].0);
    }
    assert(a =~= b);
}

/// Two runs of records that follow each other are one run.
pub proof fn law_records_join(
    l: Seq<(Seq<char>, bool)>,
    base: nat,
    from: int,
    mid: int,
    to: int,
)
    requires
        from <= mid <= to,
    ensures
        records(l, base, from, mid) + records(l, base, mid, to) == records(l, base, from, to),
    decreases to - mid,
{
    if mid < to {
        law_records_join(l, base, from, mid, to - 1);
        assert(records(l, base, from, mid) + (records(l, base, mid, to - 1) + entry_record(
            l,
            base,
            to - 1,
        )) =~= (records(l, base, from, mid) + records(l, base, mid, to - 1)) + entry_record(
            l,
            base,
            to - 1,
        ));
    } else {
        assert(records(l, base, from, mid) + records(l, base, mid, to) =~= records(
            l,
            base,
            from,
            to,
        ));
    }
}

/// A walk never goes back, and moves on whenever the next entry fits.
pub proof fn law_fitting_progress(l: Seq<(Seq<char>, bool)>, from: int, room: int)
    requires
        from <= l.len(),
    ensures
        from <= fitting(l, from, room) <= l.len(),
        from < l.len() && dirent_len(l[from].0) <= room ==> from < fitting(l, from, room),
    decreases l.len() - from,
{
    if from < l.len() && dirent_len(l[from].0) <= room {
        law_fitting_progress(l, from + 1, room - dirent_len(l[from].0));
    }
}

/// The entries that were cut off come after all that fitted: what is written is
/// no longer than the room.
pub proof fn lemma_records_fit(l: Seq<(Seq<char>, bool)>, base: nat, from: int, room: int)
    requires
        0 <= from <= l.len(),
        0 <= room,
    ensures
        records(l, base, from, fitting(l, from, room)).len() <= room,
    decreases l.len() - from,
{
    if from < l.len() && dirent_len(l[from].0) <= room {
        let d = dirent_len(l[from].0);
        let to = fitting(l, from, room);
        law_fitting_progress(l, from + 1, room - d);
        lemma_records_fit(l, base, from + 1, room - d);
        law_records_join(l, base, from, from + 1, to);
        lemma_dirent_len((base + from) as nat, (from + 1) as nat, l[from].0, l[from].1);
        reveal_with_fuel(records, 2);
        assert(records(l, base, from, from + 1) =~= entry_record(l, base, from));
    }
}

/// Put a name into its place in an ordered list of names that lacks it.
pub fn insert_sorted(out: &mut Vec<(Vec<char>, bool)>, name: Vec<char>, is_dir: bool)
    requires
        sorted_names(entry_texts(old(out)@)),
        !listed(entry_texts(old(out)@), name@),
    ensures
        sorted_names(entry_texts(final(out)@)),
        exists|j: int|
            0 <= j <= old(out)@.len() && entry_texts(final(out)@)
                == #[trigger] entry_texts(old(out)@).insert(j, (name@, is_dir)),
{
    let ghost l = entry_texts(out@);
    let n: usize = out.len();
    let mut j: usize = 0;
    while j < n && before(&out[j].0, &name)
        invariant
            j <= n,
            n == out@.len(),
            l == entry_texts(out@),
            forall|i: int| 0 <= i < j ==> text_before((#[trigger] l[i]).0, name@),
        decreases n - j,
    {
        assert(l[j as int].0 == out@[j as int].0@);
        j = j + 1;
    }
    let ghost key = (name@, is_dir);
    let ghost want = l.insert(j as int, key);
    proof {
        if j < n {
            assert(l[j as int].0 == out@[j as int].0@);
            lemma_text_before_total(l[j as int].0, key.0);
            assert(text_before(key.0, l[j as int].0));
        }
        assert forall|a: int, b: int| 0 <= a < b < want.len() implies text_before(
            (#[trigger] want[a]).0,
            (#[trigger] want[b]).0,
        ) by {
            if a < j && b < j {
                assert(want[a] == l[a] && want[b] == l[b]);
            } else if a < j && b == j {
                assert(want[a] == l[a]);
            } else if a < j {
                assert(want[a] == l[a] && want[b] == l[b - 1]);
            } else if a == j {
                assert(want[b] == l[b - 1]);
                if b - 1 > j {
                    assert(text_before(l[j as int].0, l[b - 1].0));
                    lemma_text_before_transitive(key.0, l[j as int].0, l[b - 1].0);
                }
            } else {
                assert(want[a] == l[a - 1] && want[b] == l[b - 1]);
            }
        }
    }
    out.insert(j, (name, is_dir));
    assert(entry_texts(out@) =~= want);
}

/// Write the records of `entries` from index `from` on into `out`, as many as
/// fit. Returns the bytes written and the index of the first entry left out.
#[verifier::spinoff_prover]
#[verifier::rlimit(30)]
pub fn write_entries(
    out: &mut [u8],
    entries: &Vec<(String, bool)>,
    from: usize,
    base: u64,
) -> (r: (usize, usize))
    requires
        from <= entries@.len(),
    ensures
        ({
            let l = entry_views(entries@);
            let to = fitting(l, from as int, old(out)@.len() as int);
            let bytes = records(l, base as nat, from as int, to);
            &&& r.0 == bytes.len()
            &&& r.1 == to
            &&& final(out)@ == splice(old(out)@, 0, bytes)
        }),
{
    let ghost l = entry_views(entries@);
    let total: usize = entries.len();
    let room: usize = out.len();
    let mut pos: usize = 0;
    let mut idx: usize = from;
    proof {
        assert(records(l, base as nat, from as int, from as int) =~= Seq::<u8>::empty());
        assert(out@ =~= splice(out@, 0, Seq::<u8>::empty()));
    }
    while idx < total
        invariant
            from <= idx <= total,
            total == entries@.len(),
            l == entry_views(entries@),
            room == old(out)@.len(),
            room == out@.len(),
            pos <= room,
            pos == records(l, base as nat, from as int, idx as int).len(),
            out@ == splice(
                old(out)@,
                0,
                records(l, base as nat, from as int, idx as int),
            ),
            fitting(l, from as int, room as int) == fitting(l, idx as int, room - pos),
        ensures
            idx <= total,
            fitting(l, from as int, room as int) == idx,
            pos == records(l, base as nat, from as int, idx as int).len(),
            out@ == splice(
                old(out)@,
                0,
                records(l, base as nat, from as int, idx as int),
            ),
        decreases total - idx,
    {
        let ghost written = records(l, base as nat, from as int, idx as int);
        let ghost rec = entry_record(l, base as nat, idx as int);
        proof {
            lemma_dirent_len(
                (base + idx) as nat,
                (idx + 1) as nat,
                l[idx as int].0,
                l[idx as int].1,
            );
            lemma_low_8((base + idx) as nat);
        }
        let n: usize = write_dirent64(
            out,
            pos,
            base.wrapping_add(idx as u64),
            (idx + 1) as u64,
            entries[idx].0.as_str(),
            entries[idx].1,
        );
        if n == 0 {
            break ;
        }
        proof {
            lemma_splice_append(old(out)@, 0, written, rec);
        }
        pos = pos + n;
        idx = idx + 1;
    }
    (pos, idx)
}

/// A walk stops only where the next record does not fit behind those that were written.
pub proof fn law_fitting_is_maximal(l: Seq<(Seq<char>, bool)>, base: nat, from: int, room: int)
    requires
        0 <= from <= l.len(),
        0 <= room,
    ensures
        ({
            let to = fitting(l, from, room);
            to < l.len() ==> records(l, base, from, to).len() + dirent_len(l[to].0) > room
        }),
    decreases l.len() - from,
{
    if from < l.len() && dirent_len(l[from].0) <= room {
        let left = room - dirent_len(l[from].0);
        law_fitting_progress(l, from + 1, left);
        law_fitting_is_maximal(l, base, from + 1, left);
        let to = fitting(l, from, room);
        law_records_join(l, base, from, from + 1, to);
        reveal_with_fuel(records, 2);
        lemma_dirent_len((base + from) as nat, (from + 1) as nat, l[from].0, l[from].1);
        assert(records(l, base, from, from) =~= Seq::empty());
        assert(records(l, base, from, from + 1) =~= entry_record(l, base, from));
    }
}

/// A walk through a directory begins with `.` and `..`, which are directories, and goes
/// on with the listing. The path of a name is that of the directory, a slash and the name;
/// in the root it is a slash and the name.
pub proof fn law_walk_begins_with_dots(l: Seq<(Seq<char>, bool)>, dir: Seq<char>, name: Seq<char>)
    ensures
        with_dots(l).len() == l.len() + 2,
        with_dots(l)[0] == (seq!['.'], true),
        with_dots(l)[1] == (seq!['.', '.'], true),
        with_dots(l).skip(2) == l,
        dir == seq!['/'] ==> child_path(dir, name) == seq!['/'] + name,
        dir != seq!['/'] ==> child_path(dir, name) == dir + seq!['/'] + name,
{
    assert(with_dots(l).skip(2) =~= l);
    assert(dir.push('/') =~= dir + seq!['/']);
}

/// The record of entry `i` carries the inode number `base + i` and, as its cookie, the
/// number of the entry behind it.
pub proof fn law_entry_record_counts(l: Seq<(Seq<char>, bool)>, base: nat, i: int)
    requires
        0 <= i < l.len(),
    ensures
        entry_record(l, base, i) == dirent((base + i) as nat, (i + 1) as nat, l[i].0, l[i].1),
        records(l, base, i, i + 1) == entry_record(l, base, i),
        records(l, base, i, i).len() == 0,
{
    reveal_with_fuel(records, 2);
    assert(records(l, base, i, i) =~= Seq::empty());
    assert(records(l, base, i, i + 1) =~= entry_record(l, base, i));
}

} // verus!
