//! The Python core that an embedding may carry along.
//!
//! The core is the main wasm and the standard library. Where it is absent it is
//! written into the bundle directory together with a manifest that lists no
//! wheels; where it is there already, it is left alone. The bytes go to a staging
//! directory first, which is then renamed into place.

use vstd::prelude::*;

use crate::pyodide_bundle::{
    all_pairs, described, joined, law_pair_reads_back, lines_of, value_of, values_of,
    without_return, RuntimeView,
};
use crate::text::{decimal, lemma_split_append, lemma_split_single, push_decimal, split_on};

verus! {

/// The main wasm of a bundle.
pub const CORE_WASM_FILE: &'static str = "pyodide-exnref.wasm";

/// The standard library of a bundle.
pub const CORE_STDLIB_FILE: &'static str = "python_stdlib.zip";

/// The manifest of a bundle.
pub const MANIFEST_FILE: &'static str = "manifest.txt";

/// Whether the core is there: both of its files are. The manifest does not count,
/// so that a bundle with wheels holds the core too.
pub fn core_present(wasm: bool, stdlib: bool) -> (r: bool)
    ensures
        r == (wasm && stdlib),
{
    wasm && stdlib
}

/// The name of the directory that a process stages the core in.
pub open spec fn staging(pid: u32) -> Seq<char> {
    "pyodide-embed.staging-"@ + decimal(pid as nat)
}

/// Name the staging directory of a process.
pub fn staging_name(pid: u32) -> (r: String)
    ensures
        r@ == staging(pid),
{
    let mut s = "pyodide-embed.staging-".to_owned();
    push_decimal(&mut s, pid as u64);
    s
}

/// The manifest of a bundle that holds the core alone.
pub open spec fn core_manifest_text(version: Seq<char>, python: Seq<char>) -> Seq<char> {
    "version="@ + version + "\npython="@ + python
        + "\nwasm=pyodide-exnref.wasm\nstdlib=python_stdlib.zip\n"@
}

/// Write the manifest of a bundle that holds the core alone.
pub fn core_manifest(version: &str, python: &str) -> (r: String)
    ensures
        r@ == core_manifest_text(version@, python@),
{
    let mut s = "version=".to_owned();
    s.append(version);
    s.append("\npython=");
    s.append(python);
    s.append("\nwasm=pyodide-exnref.wasm\nstdlib=python_stdlib.zip\n");
    s
}

/// The lines of the core's manifest.
proof fn lemma_manifest_lines(version: Seq<char>, python: Seq<char>)
    requires
        !version.contains('\n'),
        !python.contains('\n'),
    ensures
        split_on(core_manifest_text(version, python), '\n') == seq![
            "version="@ + version,
            "python="@ + python,
            "wasm=pyodide-exnref.wasm"@,
            "stdlib=python_stdlib.zip"@,
            Seq::<char>::empty(),
        ],
{
    reveal_strlit("version=");
    reveal_strlit("python=");
    reveal_strlit("\npython=");
    reveal_strlit("wasm=pyodide-exnref.wasm");
    reveal_strlit("stdlib=python_stdlib.zip");
    reveal_strlit("\nwasm=pyodide-exnref.wasm\nstdlib=python_stdlib.zip\n");
    let l0 = "version="@ + version;
    let l1 = "python="@ + python;
    let l2 = "wasm=pyodide-exnref.wasm"@;
    let l3 = "stdlib=python_stdlib.zip"@;
    let none = Seq::<char>::empty();
    assert(!l0.contains('\n')) by {
        assert forall|i: int| 0 <= i < l0.len() implies l0[i] != '\n' by {
            if i >= 8 {
                assert(l0[i] == version[i - 8]);
            }
        }
    }
    assert(!l1.contains('\n')) by {
        assert forall|i: int| 0 <= i < l1.len() implies l1[i] != '\n' by {
            if i >= 7 {
                assert(l1[i] == python[i - 7]);
            }
        }
    }
    assert(!l2.contains('\n'));
    assert(!l3.contains('\n'));
    let t1 = l0.push('\n') + l1;
    let t2 = t1.push('\n') + l2;
    let t3 = t2.push('\n') + l3;
    let t4 = t3.push('\n') + none;
    lemma_split_single(l0, '\n');
    lemma_split_append(l0, '\n', l1);
    lemma_split_append(t1, '\n', l2);
    lemma_split_append(t2, '\n', l3);
    lemma_split_append(t3, '\n', none);
    assert("\npython="@ =~= seq!['\n'] + "python="@);
    assert("\nwasm=pyodide-exnref.wasm\nstdlib=python_stdlib.zip\n"@ =~= seq!['\n'] + l2
        + seq!['\n'] + l3 + seq!['\n']);
    assert(core_manifest_text(version, python) =~= t4);
    assert(split_on(t4, '\n') =~= seq![l0, l1, l2, l3, none]);
}

/// The core's manifest describes the core: it names the two files under `dir`, the
/// interpreter version and no wheel.
pub proof fn law_core_manifest_resolves(
    dir: Seq<char>,
    version: Seq<char>,
    python: Seq<char>,
)
    requires
        !version.contains('\n'),
        !python.contains('\n'),
        python.len() > 0 ==> python.last() != '\r',
    ensures
        described(dir, core_manifest_text(version, python)) == Some(
            RuntimeView {
                wasm_path: joined(dir, CORE_WASM_FILE@),
                stdlib_path: joined(dir, CORE_STDLIB_FILE@),
                wheels: Seq::empty(),
                python_xy: python,
            },
        ),
{
    let text = core_manifest_text(version, python);
    let lines = lines_of(text);
    let l0 = "version="@ + version;
    let l1 = "python="@ + python;
    let l2 = "wasm=pyodide-exnref.wasm"@;
    let l3 = "stdlib=python_stdlib.zip"@;
    lemma_manifest_lines(version, python);
    reveal_strlit("version=");
    reveal_strlit("python=");
    reveal_strlit("wasm=pyodide-exnref.wasm");
    reveal_strlit("stdlib=python_stdlib.zip");
    reveal_strlit("version");
    reveal_strlit("python");
    reveal_strlit("wasm");
    reveal_strlit("stdlib");
    reveal_strlit("wheel");
    reveal_strlit("pyodide-exnref.wasm");
    reveal_strlit("python_stdlib.zip");
    let v0 = without_return(l0).skip(8);
    assert(without_return(l0) =~= "version"@.push('=') + v0);
    assert(l1 =~= "python"@.push('=') + python);
    assert(l2 =~= "wasm"@.push('=') + CORE_WASM_FILE@);
    assert(l3 =~= "stdlib"@.push('=') + CORE_STDLIB_FILE@);
    law_pair_reads_back("version"@, v0);
    law_pair_reads_back("python"@, python);
    law_pair_reads_back("wasm"@, CORE_WASM_FILE@);
    law_pair_reads_back("stdlib"@, CORE_STDLIB_FILE@);
    assert(l1.last() != '\r');
    assert(lines =~= seq![without_return(l0), l1, l2, l3]);
    assert("version"@.len() == 7);
    assert("python"@.len() == 6 && "python"@[0] == 'p');
    assert("stdlib"@.len() == 6 && "stdlib"@[0] == 's');
    assert("wheel"@.len() == 5);
    assert("wasm"@.len() == 4);
    reveal_with_fuel(values_of, 5);
    let d3 = lines.drop_last();
    let d2 = d3.drop_last();
    let d1 = d2.drop_last();
    assert(d1.drop_last() =~= Seq::<Seq<char>>::empty());
    assert(values_of(lines, "wasm"@) =~= seq![CORE_WASM_FILE@]);
    assert(values_of(lines, "stdlib"@) =~= seq![CORE_STDLIB_FILE@]);
    assert(values_of(lines, "python"@) =~= seq![python]);
    assert(values_of(lines, "wheel"@) =~= Seq::<Seq<char>>::empty());
    assert(value_of(lines, "python"@) == Some(python));
    assert(all_pairs(lines));
    assert(described(dir, text)->0.wheels =~= Seq::<Seq<char>>::empty());
}

} // verus!
