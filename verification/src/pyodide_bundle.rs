//! The manifest of a Python runtime bundle.
//!
//! A bundle is a directory with a `manifest.txt` of `key=value` lines: the
//! interpreter version (`python`), the main wasm (`wasm`), the standard library
//! (`stdlib`) and any number of wheels in load order (`wheel`). Other keys are
//! ignored. Reading the manifest and looking whether the listed files exist is
//! the embedding's part; what they amount to is decided here.

use vstd::prelude::*;

use crate::text::{
    chars_of, concat, lemma_split_join, lemma_split_nonempty, lemma_split_single, opt_text,
    same_text, split_chars, split_on, string_of, texts,
};

verus! {

/// The interpreter version of a bundle whose manifest names none.
pub const DEFAULT_PYTHON_XY: &'static str = "3.13";

/// A resolved, ready-to-run Python payload.
#[derive(Debug, Clone)]
pub struct BundledRuntime {
    /// The exnref-translated main wasm.
    pub wasm_path: String,
    /// `python_stdlib.zip`.
    pub stdlib_path: String,
    /// Wheel paths in dependency (load) order. Empty for a stdlib-only bundle.
    pub wheels: Vec<String>,
    /// Interpreter `X.Y`, e.g. `"3.13"`, for the stdlib mount and soabi tag.
    pub python_xy: String,
}

/// What a payload holds.
#[verifier::ext_equal]
pub struct RuntimeView {
    pub wasm_path: Seq<char>,
    pub stdlib_path: Seq<char>,
    pub wheels: Seq<Seq<char>>,
    pub python_xy: Seq<char>,
}

/// The texts of a vector of strings.
pub open spec fn string_texts(v: Seq<String>) -> Seq<Seq<char>> {
    Seq::new(v.len(), |i: int| v[i]@)
}

impl View for BundledRuntime {
    type V = RuntimeView;

    open spec fn view(&self) -> RuntimeView {
        RuntimeView {
            wasm_path: self.wasm_path@,
            stdlib_path: self.stdlib_path@,
            wheels: string_texts(self.wheels@),
            python_xy: self.python_xy@,
        }
    }
}

/// `line` without a trailing carriage return.
pub open spec fn without_return(line: Seq<char>) -> Seq<char> {
    if line.len() > 0 && line.last() == '\r' {
        line.drop_last()
    } else {
        line
    }
}

/// The lines of a text. A line ends with `\n` or `\r\n`; the last one need not
/// be ended, and is then kept as it is.
pub open spec fn lines_of(text: Seq<char>) -> Seq<Seq<char>> {
    let pieces = split_on(text, '\n');
    let ended = pieces.drop_last().map_values(|line: Seq<char>| without_return(line));
    if pieces.last().len() == 0 {
        ended
    } else {
        ended.push(pieces.last())
    }
}

/// Where `c` first occurs in `s`; the length of `s` if it does not.
pub open spec fn first_at(s: Seq<char>, c: char) -> int
    decreases s.len(),
{
    if s.len() == 0 || s[0] == c {
        0
    } else {
        1 + first_at(s.skip(1), c)
    }
}

/// The key and the value of a `key=value` line, cut at the first `=`.
pub open spec fn pair_of(line: Seq<char>) -> Option<(Seq<char>, Seq<char>)> {
    let at = first_at(line, '=');
    if at < line.len() {
        Some((line.take(at), line.skip(at + 1)))
    } else {
        None
    }
}

/// Whether every line has a key and a value.
pub open spec fn all_pairs(lines: Seq<Seq<char>>) -> bool {
    forall|i: int| 0 <= i < lines.len() ==> pair_of(#[trigger] lines[i]) is Some
}

/// The values that `key` has, in the order of the lines.
pub open spec fn values_of(lines: Seq<Seq<char>>, key: Seq<char>) -> Seq<Seq<char>>
    decreases lines.len(),
{
    if lines.len() == 0 {
        Seq::empty()
    } else {
        let before = values_of(lines.drop_last(), key);
        match pair_of(lines.last()) {
            Some((k, v)) if k == key => before.push(v),
            _ => before,
        }
    }
}

/// The value that `key` has in the end, if it occurs.
pub open spec fn value_of(lines: Seq<Seq<char>>, key: Seq<char>) -> Option<Seq<char>> {
    let all = values_of(lines, key);
    if all.len() == 0 {
        None
    } else {
        Some(all.last())
    }
}

/// `name` taken relative to the directory `dir`; an absolute name stands for
/// itself.
pub open spec fn joined(dir: Seq<char>, name: Seq<char>) -> Seq<char> {
    if name.len() > 0 && name[0] == '/' {
        name
    } else if dir.len() == 0 || dir.last() == '/' {
        dir + name
    } else {
        dir.push('/') + name
    }
}

/// The payload that a manifest describes. `None` if a line lacks a `=`, or if the
/// wasm or the standard library is not listed.
pub open spec fn described(dir: Seq<char>, text: Seq<char>) -> Option<RuntimeView> {
    let lines = lines_of(text);
    match (value_of(lines, "wasm"@), value_of(lines, "stdlib"@)) {
        (Some(wasm), Some(stdlib)) if all_pairs(lines) => Some(
            RuntimeView {
                wasm_path: joined(dir, wasm),
                stdlib_path: joined(dir, stdlib),
                wheels: values_of(lines, "wheel"@).map_values(|w: Seq<char>| joined(dir, w)),
                python_xy: match value_of(lines, "python"@) {
                    Some(xy) => xy,
                    None => DEFAULT_PYTHON_XY@,
                },
            },
        ),
        _ => None,
    }
}

impl RuntimeView {
    /// The files that the payload needs.
    pub open spec fn files(self) -> Seq<Seq<char>> {
        seq![self.wasm_path, self.stdlib_path] + self.wheels
    }

    /// Whether every file that the payload needs is among `existing`.
    pub open spec fn complete(self, existing: Seq<Seq<char>>) -> bool {
        forall|i: int|
            0 <= i < self.files().len() ==> existing.contains(#[trigger] self.files()[i])
    }
}

/// The position of the first `c` in `cs`.
fn find_char(cs: &[char], c: char) -> (r: usize)
    ensures
        r == first_at(cs@, c),
        r <= cs@.len(),
{
    let n: usize = cs.len();
    let mut i: usize = 0;
    assert(cs@.skip(0) =~= cs@);
    while i < n && cs[i] != c
        invariant
            i <= n,
            n == cs@.len(),
            first_at(cs@, c) == i + first_at(cs@.skip(i as int), c),
        decreases n - i,
    {
        assert(cs@.skip(i as int).skip(1) =~= cs@.skip(i + 1));
        i = i + 1;
    }
    i
}

/// Cut a `key=value` line.
pub fn cut_line(line: &[char]) -> (r: Option<(String, String)>)
    ensures
        match r {
            Some((k, v)) => pair_of(line@) == Some((k@, v@)),
            None => pair_of(line@) is None,
        },
{
    let n: usize = line.len();
    let at: usize = find_char(line, '=');
    if at == n {
        return None;
    }
    let key = string_of(&line[0..at]);
    let value = string_of(&line[at + 1..n]);
    assert(key@ =~= line@.take(at as int));
    assert(value@ =~= line@.skip(at + 1));
    Some((key, value))
}

/// The lines of a text.
pub fn text_lines(text: &str) -> (r: Vec<Vec<char>>)
    ensures
        texts(r@) == lines_of(text@),
{
    let cs = chars_of(text);
    let pieces = split_chars(&cs, '\n');
    let ghost all = split_on(text@, '\n');
    proof {
        lemma_split_nonempty(text@, '\n');
        assert(texts(pieces@).len() == pieces@.len());
    }
    let n: usize = pieces.len() - 1;
    let mut out: Vec<Vec<char>> = Vec::new();
    let ghost ended = all.drop_last().map_values(|line: Seq<char>| without_return(line));
    let mut i: usize = 0;
    assert(texts(out@) =~= ended.take(0));
    while i < n
        invariant
            i <= n,
            n == pieces@.len() - 1,
            all == texts(pieces@),
            ended == all.drop_last().map_values(|line: Seq<char>| without_return(line)),
            texts(out@) == ended.take(i as int),
        decreases n - i,
    {
        let mut line = pieces[i].clone();
        assert(line@ =~= all[i as int]);
        let len: usize = line.len();
        if len > 0 && line[len - 1] == '\r' {
            line.pop();
        }
        assert(line@ =~= ended[i as int]);
        let ghost before = texts(out@);
        out.push(line);
        i = i + 1;
        assert(texts(out@) =~= before.push(ended[i - 1]));
        assert(ended.take(i as int) =~= ended.take(i - 1).push(ended[i - 1]));
    }
    assert(ended.take(n as int) =~= ended);
    let last = pieces[n].clone();
    assert(last@ =~= all.last());
    if last.len() > 0 {
        out.push(last);
        assert(texts(out@) =~= ended.push(all.last()));
    }
    out
}

/// Join a name to a directory.
pub fn join_path(dir: &str, name: &str) -> (r: String)
    ensures
        r@ == joined(dir@, name@),
{
    let cs = chars_of(name);
    if cs.len() > 0 && cs[0] == '/' {
        return name.to_owned();
    }
    let ds = chars_of(dir);
    let n: usize = ds.len();
    if n == 0 || ds[n - 1] == '/' {
        concat(dir, name)
    } else {
        proof {
            reveal_strlit("/");
            assert(dir@ + "/"@ =~= dir@.push('/'));
        }
        let base = concat(dir, "/");
        concat(base.as_str(), name)
    }
}

/// Read the manifest of the bundle in `dir`: the payload it describes, whether or
/// not its files exist.
pub fn read_manifest(dir: &str, text: &str) -> (r: Option<BundledRuntime>)
    ensures
        match r {
            Some(rt) => described(dir@, text@) == Some(rt@),
            None => described(dir@, text@) is None,
        },
{
    let lines = text_lines(text);
    let ghost all = lines_of(text@);
    let mut wasm: Option<String> = None;
    let mut stdlib: Option<String> = None;
    let mut wheels: Vec<String> = Vec::new();
    let mut python: Option<String> = None;
    let n: usize = lines.len();
    let mut i: usize = 0;
    proof {
        assert(all.take(0) =~= Seq::<Seq<char>>::empty());
        assert(string_texts(wheels@) =~= values_of(all.take(0), "wheel"@).map_values(
            |w: Seq<char>| joined(dir@, w),
        ));
    }
    while i < n
        invariant
            i <= n,
            n == lines@.len(),
            all == texts(lines@),
            all == lines_of(text@),
            all_pairs(all.take(i as int)),
            opt_text(wasm) == value_of(all.take(i as int), "wasm"@),
            opt_text(stdlib) == value_of(all.take(i as int), "stdlib"@),
            opt_text(python) == value_of(all.take(i as int), "python"@),
            string_texts(wheels@) == values_of(all.take(i as int), "wheel"@).map_values(
                |w: Seq<char>| joined(dir@, w),
            ),
        decreases n - i,
    {
        let ghost next = all.take(i + 1);
        proof {
            assert(next.drop_last() =~= all.take(i as int));
            assert(next.last() == lines@[i as int]@);
            lemma_keys_differ();
        }
        match cut_line(&lines[i]) {
            None => {
                assert(!all_pairs(all)) by {
                    assert(pair_of(all[i as int]) is None);
                }
                return None;
            },
            Some((key, value)) => {
                let ghost before = values_of(all.take(i as int), "wheel"@);
                if same_text(key.as_str(), "wheel") {
                    let path = join_path(dir, value.as_str());
                    let ghost had = string_texts(wheels@);
                    wheels.push(path);
                    assert(string_texts(wheels@) =~= had.push(path@));
                    assert(values_of(next, "wheel"@).map_values(|w: Seq<char>| joined(dir@, w))
                        =~= before.map_values(|w: Seq<char>| joined(dir@, w)).push(path@));
                } else if same_text(key.as_str(), "python") {
                    python = Some(value);
                } else if same_text(key.as_str(), "wasm") {
                    wasm = Some(value);
                } else if same_text(key.as_str(), "stdlib") {
                    stdlib = Some(value);
                }
            },
        }
        assert(all_pairs(next)) by {
            assert forall|k: int| 0 <= k < next.len() implies pair_of(#[trigger] next[k]) is Some by {
                if k < i {
                    assert(next[k] == all.take(i as int)[k]);
                }
            }
        }
        i = i + 1;
    }
    assert(all.take(n as int) =~= all);
    match (wasm, stdlib) {
        (Some(wasm), Some(stdlib)) => {
            let python_xy = match python {
                Some(xy) => xy,
                None => DEFAULT_PYTHON_XY.to_owned(),
            };
            Some(
                BundledRuntime {
                    wasm_path: join_path(dir, wasm.as_str()),
                    stdlib_path: join_path(dir, stdlib.as_str()),
                    wheels,
                    python_xy,
                },
            )
        },
        _ => None,
    }
}

/// The four keys that count are different ones.
proof fn lemma_keys_differ()
    ensures
        "wasm"@ != "stdlib"@,
        "wasm"@ != "wheel"@,
        "wasm"@ != "python"@,
        "stdlib"@ != "wheel"@,
        "stdlib"@ != "python"@,
        "wheel"@ != "python"@,
{
    reveal_strlit("wasm");
    reveal_strlit("stdlib");
    reveal_strlit("wheel");
    reveal_strlit("python");
    assert("wasm"@.len() == 4);
    assert("stdlib"@.len() == 6);
    assert("wheel"@.len() == 5);
    assert("stdlib"@[0] == 's');
    assert("python"@[0] == 'p');
}

/// Whether `name` is among `names`.
fn contains_text(names: &Vec<String>, name: &str) -> (r: bool)
    ensures
        r == string_texts(names@).contains(name@),
{
    let n: usize = names.len();
    let mut i: usize = 0;
    while i < n
        invariant
            i <= n,
            n == names@.len(),
            forall|k: int| 0 <= k < i ==> (#[trigger] names@[k])@ != name@,
        decreases n - i,
    {
        if same_text(names[i].as_str(), name) {
            assert(string_texts(names@)[i as int] == name@);
            return true;
        }
        i = i + 1;
    }
    assert forall|k: int| 0 <= k < n implies string_texts(names@)[k] != name@ by {
        assert(names@[k]@ != name@);
    }
    false
}

impl BundledRuntime {
    /// The files that the payload needs.
    pub fn files(&self) -> (r: Vec<String>)
        ensures
            string_texts(r@) == self@.files(),
    {
        let mut out: Vec<String> = Vec::new();
        out.push(self.wasm_path.clone());
        out.push(self.stdlib_path.clone());
        let n: usize = self.wheels.len();
        let mut i: usize = 0;
        assert(string_texts(out@) =~= self@.files().take(2));
        while i < n
            invariant
                i <= n,
                n == self.wheels@.len(),
                string_texts(out@) == self@.files().take(2 + i),
            decreases n - i,
        {
            let ghost before = string_texts(out@);
            let wheel = self.wheels[i].clone();
            out.push(wheel);
            i = i + 1;
            assert(string_texts(out@) =~= before.push(wheel@));
            assert(self@.files().take(2 + i) =~= self@.files().take(1 + i).push(
                self@.files()[1 + i],
            ));
        }
        assert(self@.files().take(2 + n) =~= self@.files());
        out
    }
}

/// The payload of the bundle in `dir`, if it is a bundle.
pub open spec fn bundle_of(
    dir: Seq<char>,
    manifest: Option<Seq<char>>,
    existing: Seq<Seq<char>>,
) -> Option<RuntimeView> {
    match manifest {
        None => None,
        Some(text) => match described(dir, text) {
            Some(rt) if rt.complete(existing) => Some(rt),
            _ => None,
        },
    }
}

/// A directory without a manifest is no bundle. One with a manifest is the payload that
/// this describes, exactly if every file that it lists exists.
pub proof fn law_bundle_is_whole(
    dir: Seq<char>,
    text: Seq<char>,
    existing: Seq<Seq<char>>,
    i: int,
)
    ensures
        bundle_of(dir, None, existing) is None,
        bundle_of(dir, Some(text), existing) matches Some(rt) ==> {
            &&& described(dir, text) == Some(rt)
            &&& existing.contains(rt.wasm_path)
            &&& existing.contains(rt.stdlib_path)
            &&& 0 <= i < rt.wheels.len() ==> existing.contains(rt.wheels[i])
        },
        described(dir, text) matches Some(rt) ==> (existing.contains(rt.wasm_path)
            && existing.contains(rt.stdlib_path) && (forall|k: int|
            0 <= k < rt.wheels.len() ==> existing.contains(#[trigger] rt.wheels[k])) ==> bundle_of(
            dir,
            Some(text),
            existing,
        ) == Some(rt)),
{
    if let Some(rt) = described(dir, text) {
        assert(rt.files()[0] == rt.wasm_path);
        assert(rt.files()[1] == rt.stdlib_path);
        if 0 <= i < rt.wheels.len() {
            assert(rt.files()[i + 2] == rt.wheels[i]);
        }
        if existing.contains(rt.wasm_path) && existing.contains(rt.stdlib_path) && (forall|k: int|
            0 <= k < rt.wheels.len() ==> existing.contains(#[trigger] rt.wheels[k])) {
            assert forall|k: int| 0 <= k < rt.files().len() implies existing.contains(
                #[trigger] rt.files()[k],
            ) by {
                if k >= 2 {
                    assert(rt.files()[k] == rt.wheels[k - 2]);
                    assert(existing.contains(rt.wheels[k - 2]));
                }
            }
        }
    }
}

/// Resolve the bundle in `dir`, given the text of its manifest (`None` if it has
/// none) and which of the listed files exist. `None` when the manifest is absent
/// or malformed or lists a missing file: a half-populated bundle is no bundle.
pub fn resolve_dir(dir: &str, manifest: Option<&str>, existing: &Vec<String>) -> (r: Option<
    BundledRuntime,
>)
    ensures
        match bundle_of(
            dir@,
            match manifest {
                Some(text) => Some(text@),
                None => None,
            },
            string_texts(existing@),
        ) {
            Some(rt) => r is Some && r->0@ == rt,
            None => r is None,
        },
{
    let text = match manifest {
        None => {
            return None;
        },
        Some(text) => text,
    };
    let rt = match read_manifest(dir, text) {
        None => {
            return None;
        },
        Some(rt) => rt,
    };
    let files = rt.files();
    let n: usize = files.len();
    let mut i: usize = 0;
    while i < n
        invariant
            i <= n,
            n == files@.len(),
            manifest == Some(text),
            described(dir@, text@) == Some(rt@),
            string_texts(files@) == rt@.files(),
            forall|k: int|
                0 <= k < i ==> string_texts(existing@).contains(#[trigger] rt@.files()[k]),
        decreases n - i,
    {
        if !contains_text(existing, files[i].as_str()) {
            assert(files@[i as int]@ == rt@.files()[i as int]);
            return None;
        }
        assert(files@[i as int]@ == rt@.files()[i as int]);
        i = i + 1;
    }
    Some(rt)
}

/// A line made of a key without `=`, a `=` and a value is cut into the two.
pub proof fn law_pair_reads_back(key: Seq<char>, value: Seq<char>)
    requires
        !key.contains('='),
    ensures
        pair_of(key.push('=') + value) == Some((key, value)),
{
    let line = key.push('=') + value;
    lemma_first_at(key, value);
    assert(line.take(key.len() as int) =~= key);
    assert(line.skip(key.len() as int + 1) =~= value);
}

proof fn lemma_first_at(key: Seq<char>, value: Seq<char>)
    requires
        !key.contains('='),
    ensures
        first_at(key.push('=') + value, '=') == key.len(),
    decreases key.len(),
{
    let line = key.push('=') + value;
    if key.len() > 0 {
        assert(key.contains(key[0]));
        assert(line[0] == key[0]);
        let rest = key.skip(1);
        assert(!rest.contains('=')) by {
            if rest.contains('=') {
                let k = choose|k: int| 0 <= k < rest.len() && rest[k] == '=';
                assert(key[k + 1] == '=');
            }
        }
        lemma_first_at(rest, value);
        assert(line.skip(1) =~= rest.push('=') + value);
    } else {
        assert(line[0] == '=');
    }
}

/// A bundle never resolves to a payload with a missing file.
pub proof fn law_resolved_is_complete(rt: RuntimeView, existing: Seq<Seq<char>>, file: Seq<char>)
    requires
        rt.complete(existing),
        rt.wasm_path == file || rt.stdlib_path == file || rt.wheels.contains(file),
    ensures
        existing.contains(file),
{
    let files = rt.files();
    if rt.wasm_path == file {
        assert(files[0] == file);
    } else if rt.stdlib_path == file {
        assert(files[1] == file);
    } else {
        let k = choose|k: int| 0 <= k < rt.wheels.len() && rt.wheels[k] == file;
        assert(files[2 + k] == file);
    }
}

/// Lines are what line breaks end, without the break and without a carriage return before
/// it; a text that goes on behind its last line break has one more line, as it stands.
pub proof fn law_lines_end_at_breaks(line: Seq<char>, rest: Seq<char>)
    requires
        !line.contains('\n'),
    ensures
        lines_of(Seq::empty()).len() == 0,
        line.len() > 0 ==> lines_of(line) == seq![line],
        line.len() > 0 && line.last() == '\r' ==> lines_of(line.push('\n') + rest) == seq![
            line.drop_last(),
        ] + lines_of(rest),
        line.len() == 0 || line.last() != '\r' ==> lines_of(line.push('\n') + rest) == seq![line]
            + lines_of(rest),
{
    lemma_split_single(line, '\n');
    lemma_split_single(Seq::<char>::empty(), '\n');
    assert(lines_of(Seq::empty()) =~= Seq::empty());
    if line.len() > 0 {
        assert(lines_of(line) =~= seq![line]);
    }
    lemma_split_join(line, '\n', rest);
    lemma_split_nonempty(rest, '\n');
    let pieces = split_on(line.push('\n') + rest, '\n');
    let tail = split_on(rest, '\n');
    assert(pieces == seq![line] + tail);
    assert(pieces.last() == tail.last());
    let f = |l: Seq<char>| without_return(l);
    assert(pieces.drop_last() =~= seq![line] + tail.drop_last());
    assert(pieces.drop_last().map_values(f) =~= seq![without_return(line)]
        + tail.drop_last().map_values(f));
    assert(lines_of(line.push('\n') + rest) =~= seq![without_return(line)] + lines_of(rest));
}

/// A line with a key adds its value behind the values that the key had, becomes what the
/// key has in the end, and leaves the other keys alone.
pub proof fn law_value_is_added(
    lines: Seq<Seq<char>>,
    key: Seq<char>,
    value: Seq<char>,
    other: Seq<char>,
)
    requires
        !key.contains('='),
        other != key,
    ensures
        ({
            let all = lines.push(key.push('=') + value);
            &&& values_of(all, key) == values_of(lines, key).push(value)
            &&& value_of(all, key) == Some(value)
            &&& values_of(all, other) == values_of(lines, other)
            &&& value_of(all, other) == value_of(lines, other)
        }),
        values_of(Seq::empty(), key).len() == 0,
{
    law_pair_reads_back(key, value);
    assert(lines.push(key.push('=') + value).drop_last() =~= lines);
}

/// A name is joined to a directory with exactly one slash between them; an absolute name
/// stands for itself.
pub proof fn law_names_join(dir: Seq<char>, name: Seq<char>)
    ensures
        name.len() > 0 && name[0] == '/' ==> joined(dir, name) == name,
        (name.len() == 0 || name[0] != '/') && dir.len() > 0 && dir.last() != '/' ==> joined(
            dir,
            name,
        ) == dir + seq!['/'] + name,
        (name.len() == 0 || name[0] != '/') && dir.len() > 0 && dir.last() == '/' ==> joined(
            dir,
            name,
        ) == dir + name,
        (name.len() == 0 || name[0] != '/') && dir.len() == 0 ==> joined(dir, name) == name,
{
    assert(dir.push('/') + name =~= dir + seq!['/'] + name);
    if dir.len() == 0 {
        assert(dir + name =~= name);
    }
}

/// A manifest that lists a wasm and a standard library, in lines that all have a key,
/// describes a payload: the two files and the wheels, in their order, under the directory,
/// with the interpreter version that it names, or else 3.13. Any other manifest describes
/// none.
pub proof fn law_manifest_describes(dir: Seq<char>, text: Seq<char>)
    ensures
        ({
            let lines = lines_of(text);
            let whole = forall|i: int|
                0 <= i < lines.len() ==> pair_of(#[trigger] lines[i]) is Some;
            let wasm = value_of(lines, "wasm"@);
            let stdlib = value_of(lines, "stdlib"@);
            &&& !whole || wasm is None || stdlib is None ==> described(dir, text) is None
            &&& whole && wasm is Some && stdlib is Some ==> {
                &&& described(dir, text) is Some
                &&& described(dir, text)->0.wasm_path == joined(dir, wasm->0)
                &&& described(dir, text)->0.stdlib_path == joined(dir, stdlib->0)
                &&& described(dir, text)->0.wheels.len() == values_of(lines, "wheel"@).len()
                &&& forall|i: int|
                    0 <= i < values_of(lines, "wheel"@).len() ==> #[trigger] described(
                        dir,
                        text,
                    )->0.wheels[i] == joined(dir, values_of(lines, "wheel"@)[i])
                &&& described(dir, text)->0.python_xy == match value_of(lines, "python"@) {
                    Some(xy) => xy,
                    None => "3.13"@,
                }
            }
        }),
{
}

} // verus!
