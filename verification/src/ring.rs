//! Logs that keep only their latest entries.

use std::collections::VecDeque;

use vstd::prelude::*;

use crate::text::concat;

verus! {

/// `s` with `x` added at the end and, once it holds `cap` entries, the oldest
/// one dropped for it.
pub open spec fn ring_push<T>(s: Seq<T>, x: T, cap: nat) -> Seq<T> {
    if s.len() >= cap {
        s.skip(1).push(x)
    } else {
        s.push(x)
    }
}

/// The last `n` entries of `s`.
pub open spec fn last_of<T>(s: Seq<T>, n: nat) -> Seq<T> {
    if n >= s.len() {
        s
    } else {
        s.skip(s.len() - n)
    }
}

/// `s` after each of `xs` was added.
pub open spec fn ring_push_all<T>(s: Seq<T>, xs: Seq<T>, cap: nat) -> Seq<T>
    decreases xs.len(),
{
    if xs.len() == 0 {
        s
    } else {
        ring_push(ring_push_all(s, xs.drop_last(), cap), xs.last(), cap)
    }
}

/// A ring holds the latest entries, in order, and no more than it may.
pub proof fn law_ring_keeps_latest<T>(xs: Seq<T>, cap: nat)
    requires
        cap > 0,
    ensures
        ring_push_all(Seq::<T>::empty(), xs, cap) == last_of(xs, cap),
    decreases xs.len(),
{
    if xs.len() > 0 {
        law_ring_keeps_latest(xs.drop_last(), cap);
        let before = last_of(xs.drop_last(), cap);
        assert(ring_push(before, xs.last(), cap) =~= last_of(xs, cap));
    } else {
        assert(last_of(xs, cap) =~= Seq::<T>::empty());
    }
}

/// How many paths a [`PathLog`] keeps.
pub const PATH_LOG_CAP: usize = 200;

/// The latest paths that the guest asked for, each with the call it came in.
pub struct PathLog {
    entries: VecDeque<String>,
}

spec fn string_views(s: Seq<String>) -> Seq<Seq<char>> {
    Seq::new(s.len(), |i: int| s[i]@)
}

impl View for PathLog {
    type V = Seq<Seq<char>>;

    closed spec fn view(&self) -> Seq<Seq<char>> {
        string_views(self.entries@)
    }
}

impl PathLog {
    /// An empty log.
    pub fn new() -> (r: Self)
        ensures
            r@ == Seq::<Seq<char>>::empty(),
    {
        let r = PathLog { entries: VecDeque::new() };
        assert(r@ =~= Seq::<Seq<char>>::empty());
        r
    }

    /// Record a path under `tag`.
    pub fn push(&mut self, tag: &str, path: &str)
        ensures
            final(self)@ == ring_push(old(self)@, tag@ + path@, PATH_LOG_CAP as nat),
    {
        let ghost was = self.entries@;
        if self.entries.len() >= PATH_LOG_CAP {
            self.entries.pop_front();
            assert(string_views(self.entries@) =~= string_views(was).skip(1));
        }
        let ghost mid = self.entries@;
        let line = concat(tag, path);
        self.entries.push_back(line);
        assert(string_views(self.entries@) =~= string_views(mid).push(tag@ + path@));
    }

    /// The recorded lines, oldest first.
    pub fn lines(&self) -> (r: Vec<String>)
        ensures
            Seq::new(r@.len(), |i: int| r@[i]@) == self@,
    {
        let n: usize = self.entries.len();
        let mut out: Vec<String> = Vec::new();
        let mut i: usize = 0;
        while i < n
            invariant
                i <= n,
                n == self.entries@.len(),
                out@.len() == i,
                forall|k: int| 0 <= k < i ==> (#[trigger] out@[k])@ == self.entries@[k]@,
            decreases n - i,
        {
            out.push(self.entries[i].clone());
            i = i + 1;
        }
        assert(Seq::new(out@.len(), |i: int| out@[i]@) =~= self@);
        out
    }
}

} // verus!
