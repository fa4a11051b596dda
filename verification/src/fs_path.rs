//! Absolute guest paths: how they are cut into segments and put in canonical
//! form.

use vstd::prelude::*;

use crate::text::{
    chars_of, lemma_split_append, lemma_split_join, lemma_split_nonempty, split_chars, split_on,
    string_of, texts,
};

verus! {

/// Where a walk stands after one more segment: empty and `.` segments stay
/// put, `..` goes up (and stays at the root), any other name goes down.
pub open spec fn walk(at: Seq<Seq<char>>, seg: Seq<char>) -> Seq<Seq<char>> {
    if seg == Seq::<char>::empty() || seg == seq!['.'] {
        at
    } else if seg == seq!['.', '.'] {
        if at.len() > 0 {
            at.drop_last()
        } else {
            at
        }
    } else {
        at.push(seg)
    }
}

/// Where a walk from the root along `segs` ends.
pub open spec fn destination(segs: Seq<Seq<char>>) -> Seq<Seq<char>>
    decreases segs.len(),
{
    if segs.len() == 0 {
        Seq::empty()
    } else {
        walk(destination(segs.drop_last()), segs.last())
    }
}

/// Every name of `parts` with a slash in front of it.
pub open spec fn slashed(parts: Seq<Seq<char>>) -> Seq<char>
    decreases parts.len(),
{
    if parts.len() == 0 {
        Seq::empty()
    } else {
        slashed(parts.drop_last()).push('/') + parts.last()
    }
}

/// The path of the node that the names `parts` lead to from the root.
pub open spec fn render(parts: Seq<Seq<char>>) -> Seq<char> {
    if parts.len() == 0 {
        seq!['/']
    } else {
        slashed(parts)
    }
}

/// The names on the way from the root to what `path` denotes.
pub open spec fn names(path: Seq<char>) -> Seq<Seq<char>> {
    destination(split_on(path, '/'))
}

/// The canonical form of an absolute path.
pub open spec fn canonical(path: Seq<char>) -> Seq<char> {
    render(names(path))
}

/// A name that a canonical path can hold.
pub open spec fn plain_name(n: Seq<char>) -> bool {
    &&& n.len() > 0
    &&& n != seq!['.']
    &&& n != seq!['.', '.']
    &&& !n.contains('/')
}

/// Only names that a canonical path can hold.
pub open spec fn plain_names(parts: Seq<Seq<char>>) -> bool {
    forall|i: int| 0 <= i < parts.len() ==> plain_name(#[trigger] parts[i])
}

/// A path in canonical form: `/`, or plain names with one slash before each.
pub open spec fn is_canonical(path: Seq<char>) -> bool {
    exists|parts: Seq<Seq<char>>| #[trigger] plain_names(parts) && path == render(parts)
}

/// Index of the last slash in `s`, or -1.
pub open spec fn last_slash(s: Seq<char>) -> int
    decreases s.len(),
{
    if s.len() == 0 {
        -1
    } else if s.last() == '/' {
        s.len() - 1
    } else {
        last_slash(s.drop_last())
    }
}

/// The directory part of a path: nothing for `/` and for a path without a
/// slash, otherwise what stands before the last slash (`/` if that is empty).
pub open spec fn parent(path: Seq<char>) -> Option<Seq<char>> {
    if path == seq!['/'] || last_slash(path) < 0 {
        None
    } else if last_slash(path) == 0 {
        Some(seq!['/'])
    } else {
        Some(path.take(last_slash(path)))
    }
}

proof fn lemma_split_no_slash(s: Seq<char>)
    ensures
        forall|i: int|
            0 <= i < split_on(s, '/').len() ==> !(#[trigger] split_on(s, '/')[i]).contains('/'),
    decreases s.len(),
{
    if s.len() > 0 {
        lemma_split_no_slash(s.drop_last());
        lemma_split_nonempty(s.drop_last(), '/');
        let before = split_on(s.drop_last(), '/');
        assert forall|i: int| 0 <= i < split_on(s, '/').len() implies !(
        #[trigger] split_on(s, '/')[i]).contains('/') by {
            if i < before.len() - 1 || s.last() == '/' {
                if i < before.len() {
                    assert(split_on(s, '/')[i] == before[i]);
                }
            } else {
                let seg = split_on(s, '/')[i];
                assert(seg == before.last().push(s.last()));
                assert(!before[before.len() - 1].contains('/'));
                assert forall|k: int| 0 <= k < seg.len() implies seg[k] != '/' by {
                    if k < before.last().len() {
                        assert(before.last().contains(before.last()[k]));
                    }
                }
            }
        }
    }
}

proof fn lemma_destination_plain(segs: Seq<Seq<char>>)
    requires
        forall|i: int| 0 <= i < segs.len() ==> !(#[trigger] segs[i]).contains('/'),
    ensures
        plain_names(destination(segs)),
    decreases segs.len(),
{
    if segs.len() > 0 {
        let init = segs.drop_last();
        assert forall|i: int| 0 <= i < init.len() implies !(#[trigger] init[i]).contains('/') by {
            assert(init[i] == segs[i]);
        }
        lemma_destination_plain(init);
        let at = destination(init);
        let seg = segs.last();
        assert(!segs[segs.len() - 1].contains('/'));
        if seg.len() == 0 {
            assert(seg =~= Seq::<char>::empty());
        }
    }
}

pub proof fn lemma_split_slashed(parts: Seq<Seq<char>>)
    requires
        plain_names(parts),
    ensures
        split_on(slashed(parts), '/') == seq![Seq::<char>::empty()] + parts,
    decreases parts.len(),
{
    if parts.len() == 0 {
        assert(seq![Seq::<char>::empty()] + parts =~= seq![Seq::<char>::empty()]);
    } else {
        let init = parts.drop_last();
        assert(plain_name(parts[parts.len() - 1]));
        assert forall|i: int| 0 <= i < init.len() implies plain_name(#[trigger] init[i]) by {
            assert(init[i] == parts[i]);
        }
        lemma_split_slashed(init);
        lemma_split_append(slashed(init), '/', parts.last());
        assert((seq![Seq::<char>::empty()] + init).push(parts.last()) =~= seq![
            Seq::<char>::empty(),
        ] + parts);
    }
}

proof fn lemma_destination_of_plain(parts: Seq<Seq<char>>)
    requires
        plain_names(parts),
    ensures
        destination(seq![Seq::<char>::empty()] + parts) == parts,
    decreases parts.len(),
{
    let segs = seq![Seq::<char>::empty()] + parts;
    reveal_with_fuel(destination, 2);
    if parts.len() == 0 {
        assert(segs.drop_last() =~= Seq::empty());
        assert(segs.last() == Seq::<char>::empty());
        assert(parts =~= Seq::empty());
    } else {
        let init = parts.drop_last();
        assert forall|i: int| 0 <= i < init.len() implies plain_name(#[trigger] init[i]) by {
            assert(init[i] == parts[i]);
        }
        lemma_destination_of_plain(init);
        assert(segs.drop_last() =~= seq![Seq::<char>::empty()] + init);
        assert(segs.last() == parts.last());
        assert(plain_name(parts[parts.len() - 1]));
        assert(init.push(parts.last()) =~= parts);
    }
}

/// The names of a rendered path are the names it was rendered from.
pub proof fn law_names_of_render(parts: Seq<Seq<char>>)
    requires
        plain_names(parts),
    ensures
        names(render(parts)) == parts,
        canonical(render(parts)) == render(parts),
{
    if parts.len() == 0 {
        let root = seq!['/'];
        reveal_with_fuel(split_on, 3);
        reveal_with_fuel(destination, 3);
        assert(root.drop_last() =~= Seq::<char>::empty());
        let e = Seq::<char>::empty();
        assert(split_on(root, '/') =~= seq![e, e]);
        assert(seq![e, e].drop_last() =~= seq![e]);
        assert(seq![e].drop_last() =~= Seq::<Seq<char>>::empty());
        assert(parts =~= Seq::empty());
    } else {
        lemma_split_slashed(parts);
        lemma_destination_of_plain(parts);
    }
}

/// Whatever the input, the canonical form is canonical: absolute, no empty, `.`
/// or `..` segment, no trailing slash.
pub proof fn law_canonical_is_canonical(path: Seq<char>)
    ensures
        is_canonical(canonical(path)),
        plain_names(names(path)),
{
    lemma_split_no_slash(path);
    lemma_destination_plain(split_on(path, '/'));
    assert(plain_names(names(path)));
}

/// Putting a path in canonical form twice is the same as doing it once.
pub proof fn law_canonical_idempotent(path: Seq<char>)
    ensures
        canonical(canonical(path)) == canonical(path),
{
    law_canonical_is_canonical(path);
    law_names_of_render(names(path));
}

/// Two walks that stand at the same place end at the same place if they go on
/// along the same segments.
proof fn lemma_destination_join(a: Seq<Seq<char>>, b: Seq<Seq<char>>, rest: Seq<Seq<char>>)
    requires
        destination(a) == destination(b),
    ensures
        destination(a + rest) == destination(b + rest),
    decreases rest.len(),
{
    if rest.len() == 0 {
        assert(a + rest =~= a);
        assert(b + rest =~= b);
    } else {
        lemma_destination_join(a, b, rest.drop_last());
        assert((a + rest).drop_last() =~= a + rest.drop_last());
        assert((b + rest).drop_last() =~= b + rest.drop_last());
    }
}

/// Behind a path its canonical form leads to the same place: a path joined to it
/// denotes the same, whichever of the two it is joined to.
pub proof fn law_canonical_of_join(a: Seq<char>, b: Seq<char>)
    ensures
        canonical(a + seq!['/'] + b) == canonical(canonical(a) + seq!['/'] + b),
{
    let c = canonical(a);
    law_canonical_is_canonical(a);
    law_names_of_render(names(a));
    assert(a + seq!['/'] =~= a.push('/'));
    assert(c + seq!['/'] =~= c.push('/'));
    lemma_split_join(a, '/', b);
    lemma_split_join(c, '/', b);
    lemma_destination_join(split_on(a, '/'), split_on(c, '/'), split_on(b, '/'));
}

/// A canonical path is its own canonical form.
pub proof fn law_canonical_fixes_canonical(path: Seq<char>)
    requires
        is_canonical(path),
    ensures
        canonical(path) == path,
{
    let parts = choose|parts: Seq<Seq<char>>| #[trigger]
        plain_names(parts) && path == render(parts);
    law_names_of_render(parts);
}

proof fn lemma_last_slash_append(s: Seq<char>, seg: Seq<char>)
    requires
        !seg.contains('/'),
    ensures
        last_slash(s.push('/') + seg) == s.len(),
    decreases seg.len(),
{
    let whole = s.push('/') + seg;
    if seg.len() == 0 {
        assert(whole =~= s.push('/'));
    } else {
        let short = seg.drop_last();
        assert(seg.contains(seg[seg.len() - 1]));
        assert(!short.contains('/')) by {
            if short.contains('/') {
                let k = choose|k: int| 0 <= k < short.len() && short[k] == '/';
                assert(seg[k] == '/');
            }
        }
        lemma_last_slash_append(s, short);
        assert(whole.drop_last() =~= s.push('/') + short);
    }
}

/// The parent of a canonical path other than `/` is the path without its last
/// name; `/` has none.
pub proof fn law_parent_of_canonical(parts: Seq<Seq<char>>)
    requires
        plain_names(parts),
    ensures
        parent(render(parts)) == if parts.len() == 0 {
            None::<Seq<char>>
        } else {
            Some(render(parts.drop_last()))
        },
{
    if parts.len() > 0 {
        let init = slashed(parts.drop_last());
        let path = init.push('/') + parts.last();
        assert(plain_name(parts[parts.len() - 1]));
        lemma_last_slash_append(init, parts.last());
        assert(path.len() > 1);
        assert(path.take(init.len() as int) =~= init);
        if parts.len() > 1 {
            let init2 = parts.drop_last();
            assert(slashed(init2).len() > 0);
        }
    }
}

/// Where a path leads when it goes on: behind a slash, `.` and nothing stay put, `..`
/// goes up by one name and stays at the root, and any other name goes down. The empty
/// path and `/` are the root.
pub proof fn law_path_steps(path: Seq<char>, name: Seq<char>)
    ensures
        names(path.push('/')) == names(path),
        names(path.push('/').push('.')) == names(path),
        names(path).len() > 0 ==> names(path.push('/').push('.').push('.')) == names(
            path,
        ).drop_last(),
        names(path).len() == 0 ==> names(path.push('/').push('.').push('.')).len() == 0,
        plain_name(name) ==> names(path.push('/') + name) == names(path).push(name),
        canonical(Seq::empty()) == seq!['/'],
        canonical(seq!['/']) == seq!['/'],
{
    let dot = seq!['.'];
    let dots = seq!['.', '.'];
    let none = Seq::<char>::empty();
    assert(path.push('/') =~= path.push('/') + none);
    assert(path.push('/').push('.') =~= path.push('/') + dot);
    assert(path.push('/').push('.').push('.') =~= path.push('/') + dots);
    lemma_one_more(path, none);
    lemma_one_more(path, dot);
    lemma_one_more(path, dots);
    if plain_name(name) {
        lemma_one_more(path, name);
    }
    reveal_with_fuel(destination, 3);
    assert(split_on(none, '/') =~= seq![none]);
    assert(seq![none].drop_last() =~= Seq::empty());
    assert(names(none) =~= Seq::empty());
    lemma_one_more(none, none);
    assert(none.push('/') + none =~= seq!['/']);
}

proof fn lemma_one_more(path: Seq<char>, seg: Seq<char>)
    requires
        !seg.contains('/'),
    ensures
        names(path.push('/') + seg) == walk(names(path), seg),
{
    lemma_split_append(path, '/', seg);
    let all = split_on(path.push('/') + seg, '/');
    assert(all.drop_last() =~= split_on(path, '/'));
    assert(all.last() == seg);
}

/// The path of one more name is the path, a slash and the name; that of a name in the
/// root is a slash and the name.
pub proof fn law_render_steps(parts: Seq<Seq<char>>, name: Seq<char>)
    ensures
        render(Seq::empty()) == seq!['/'],
        parts.len() == 0 ==> render(parts.push(name)) == seq!['/'] + name,
        parts.len() > 0 ==> render(parts.push(name)) == render(parts) + seq!['/'] + name,
{
    reveal_with_fuel(slashed, 2);
    assert(parts.push(name).drop_last() =~= parts);
    assert(slashed(parts).push('/') =~= slashed(parts) + seq!['/']);
    if parts.len() == 0 {
        assert(slashed(parts) + seq!['/'] =~= seq!['/']);
    }
}

/// Apply one more path segment to the names walked so far.
fn walk_segment(at: &mut Vec<Vec<char>>, seg: Vec<char>)
    ensures
        texts(final(at)@) == walk(texts(old(at)@), seg@),
{
    let n: usize = seg.len();
    if n == 0 {
        assert(seg@ =~= Seq::<char>::empty());
        return;
    }
    if n == 1 && seg[0] == '.' {
        assert(seg@ =~= seq!['.']);
        return;
    }
    if n == 2 && seg[0] == '.' && seg[1] == '.' {
        assert(seg@ =~= seq!['.', '.']);
        if at.len() > 0 {
            at.pop();
            assert(texts(at@) =~= texts(old(at)@).drop_last());
        }
        return;
    }
    assert(seg@ != seq!['.', '.']) by {
        if seg@ == seq!['.', '.'] {
            assert(seg@[0] == '.' && seg@[1] == '.');
        }
    }
    assert(seg@ != seq!['.']) by {
        if seg@ == seq!['.'] {
            assert(seg@[0] == '.');
        }
    }
    at.push(seg);
    assert(texts(at@) =~= texts(old(at)@).push(seg@));
}

/// The names on the way from the root to what `path` denotes.
pub fn names_of(path: &str) -> (r: Vec<Vec<char>>)
    ensures
        texts(r@) == names(path@),
{
    let cs = chars_of(path);
    let segs = split_chars(&cs, '/');
    let ghost all = texts(segs@);
    let n: usize = segs.len();
    let mut at: Vec<Vec<char>> = Vec::new();
    let mut i: usize = 0;
    assert(all.take(0) =~= Seq::<Seq<char>>::empty());
    assert(texts(at@) =~= Seq::<Seq<char>>::empty());
    while i < n
        invariant
            i <= n,
            n == segs@.len(),
            all == texts(segs@),
            texts(at@) == destination(all.take(i as int)),
        decreases n - i,
    {
        let seg = segs[i].clone();
        assert(seg@ =~= all[i as int]);
        walk_segment(&mut at, seg);
        assert(all.take(i + 1).drop_last() =~= all.take(i as int));
        i = i + 1;
    }
    assert(all.take(n as int) =~= all);
    at
}

/// The path that the given names lead to.
pub fn render_path(parts: &Vec<Vec<char>>) -> (r: Vec<char>)
    ensures
        r@ == render(texts(parts@)),
{
    let n: usize = parts.len();
    if n == 0 {
        let r = vec!['/'];
        assert(r@ =~= seq!['/']);
        return r;
    }
    let mut out: Vec<char> = Vec::new();
    let mut i: usize = 0;
    assert(texts(parts@).take(0) =~= Seq::<Seq<char>>::empty());
    assert(out@ =~= Seq::<char>::empty());
    while i < n
        invariant
            i <= n,
            n == parts@.len(),
            out@ == slashed(texts(parts@).take(i as int)),
        decreases n - i,
    {
        let ghost next = texts(parts@).take(i + 1);
        assert(next.drop_last() =~= texts(parts@).take(i as int));
        out.push('/');
        let mut name = parts[i].clone();
        assert(name@ =~= parts[i as int]@);
        out.append(&mut name);
        i = i + 1;
    }
    assert(texts(parts@).take(n as int) =~= texts(parts@));
    out
}

/// Canonicalize an absolute path: collapse `//`, `..`, `.`; no trailing slash
/// (unless the result is just `/`).
pub fn canonicalize(path: &str) -> (r: String)
    ensures
        r@ == canonical(path@),
{
    let parts = names_of(path);
    let cs = render_path(&parts);
    string_of(&cs)
}

/// Return the parent of an absolute canonical path, or `None` for `/`.
pub fn parent_of(path: &str) -> (r: Option<String>)
    ensures
        r is Some <==> parent(path@) is Some,
        r matches Some(p) ==> parent(path@) == Some(p@),
{
    let cs = chars_of(path);
    let n: usize = cs.len();
    if n == 1 && cs[0] == '/' {
        assert(path@ =~= seq!['/']);
        return None;
    }
    assert(path@ != seq!['/']) by {
        if path@ == seq!['/'] {
            assert(path@[0] == '/');
        }
    }
    let mut i: usize = n;
    assert(cs@.take(n as int) =~= cs@);
    while i > 0
        invariant
            i <= n,
            n == cs@.len(),
            cs@ == path@,
            path@ != seq!['/'],
            last_slash(cs@) == last_slash(cs@.take(i as int)),
        decreases i,
    {
        let ghost head = cs@.take(i as int);
        assert(head.last() == cs@[i - 1]);
        if cs[i - 1] == '/' {
            if i == 1 {
                let r = vec!['/'];
                assert(r@ =~= seq!['/']);
                return Some(string_of(&r));
            }
            return Some(string_of(&cs[0..i - 1]));
        }
        assert(head.drop_last() =~= cs@.take(i - 1));
        i = i - 1;
    }
    None
}

} // verus!
