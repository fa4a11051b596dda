//! Import signatures, and the table-dispatch trampolines.
//!
//! The first parameter of a trampoline is a slot of the function table; the
//! others are forwarded to the function in that slot.

use vstd::prelude::*;

use crate::emscripten_runtime::{RefKind, ValType};
use crate::text::{
    chars_of, has_prefix, lemma_split_append, split_chars, split_on, starts_with, string_of, texts,
};

verus! {

/// The trampolines whose names spell their signatures.
pub const INVOKE_NAMES: &'static str = "\
    invoke_v invoke_i invoke_j invoke_vi invoke_ii invoke_ji invoke_vii invoke_iii \
    invoke_jii invoke_viii invoke_iiii invoke_jiii invoke_fiii invoke_diii invoke_viiii \
    invoke_iiiii invoke_jiiii invoke_viiiii invoke_iiiiii invoke_viiiiii invoke_iiiiiii \
    invoke_viiiiiii invoke_iiiiiiii invoke_viiiiiiiiii invoke_iiiiiiiiiii \
    invoke_iiiiiiiiiiii invoke_iiiiiiiiiiiii invoke_viiiiiiiiiiiiiii invoke_iiji \
    invoke_iiiiij invoke_iiiiijj invoke_viid invoke_viif invoke_viiidi invoke_viiifi \
    invoke_viijii invoke_viijj invoke_iiiiid";

/// The type that a letter of a signature stands for.
pub open spec fn letter_type(c: char) -> Option<ValType> {
    if c == 'i' {
        Some(ValType::I32)
    } else if c == 'j' {
        Some(ValType::I64)
    } else if c == 'f' {
        Some(ValType::F32)
    } else if c == 'd' {
        Some(ValType::F64)
    } else if c == 'e' {
        Some(ValType::Ref { kind: RefKind::Extern, nullable: true })
    } else {
        None
    }
}

/// The types that the letters of a signature stand for; any other letter, such
/// as the `v` of a function without result, stands for none.
pub open spec fn letter_types(s: Seq<char>) -> Seq<ValType>
    decreases s.len(),
{
    if s.len() == 0 {
        Seq::empty()
    } else {
        match letter_type(s.last()) {
            Some(t) => letter_types(s.drop_last()).push(t),
            None => letter_types(s.drop_last()),
        }
    }
}

/// Read the letters of a signature.
pub fn read_types(s: &[char]) -> (r: Vec<ValType>)
    ensures
        r@ == letter_types(s@),
{
    let n: usize = s.len();
    let mut out: Vec<ValType> = Vec::new();
    let mut i: usize = 0;
    while i < n
        invariant
            i <= n,
            n == s@.len(),
            out@ == letter_types(s@.take(i as int)),
        decreases n - i,
    {
        let c = s[i];
        proof {
            assert(s@.take(i + 1).drop_last() =~= s@.take(i as int));
            assert(s@.take(i + 1).last() == c);
        }
        if c == 'i' {
            out.push(ValType::I32);
        } else if c == 'j' {
            out.push(ValType::I64);
        } else if c == 'f' {
            out.push(ValType::F32);
        } else if c == 'd' {
            out.push(ValType::F64);
        } else if c == 'e' {
            out.push(ValType::Ref { kind: RefKind::Extern, nullable: true });
        }
        i = i + 1;
    }
    assert(s@.take(n as int) =~= s@);
    out
}

/// An import and its signature.
#[derive(Debug)]
pub struct ImportSig {
    pub name: String,
    pub params: Vec<ValType>,
    pub results: Vec<ValType>,
}

/// What an [`ImportSig`] says.
#[verifier::ext_equal]
pub struct SigView {
    pub name: Seq<char>,
    pub params: Seq<ValType>,
    pub results: Seq<ValType>,
}

impl View for ImportSig {
    type V = SigView;

    open spec fn view(&self) -> SigView {
        SigView { name: self.name@, params: self.params@, results: self.results@ }
    }
}

/// The signatures in a list.
pub open spec fn sig_views(s: Seq<ImportSig>) -> Seq<SigView> {
    Seq::new(s.len(), |i: int| s[i]@)
}

/// The signature that the name of a trampoline spells: behind `invoke_` stands
/// the letter of the result, then those of the forwarded parameters, before
/// which comes the slot index.
pub open spec fn invoke_sig(name: Seq<char>) -> SigView {
    let letters = name.skip(7);
    SigView {
        name,
        params: seq![ValType::I32] + letter_types(letters.skip(1)),
        results: letter_types(letters.take(1)),
    }
}

/// The signature that the name of a trampoline spells; `None` if it is no such
/// name.
pub fn invoke_signature(name: &str) -> (r: Option<ImportSig>)
    ensures
        if starts_with(name@, "invoke_"@) && name@.len() > 7 {
            r is Some && r->0@ == invoke_sig(name@)
        } else {
            r is None
        },
{
    let cs = chars_of(name);
    let prefix = chars_of("invoke_");
    if !has_prefix(&cs, &prefix) || cs.len() <= 7 {
        return None;
    }
    let n: usize = cs.len();
    let mut params: Vec<ValType> = vec![ValType::I32];
    let mut rest = read_types(&cs[8..n]);
    let results = read_types(&cs[7..8]);
    proof {
        let letters = name@.skip(7);
        assert(cs@.subrange(8, n as int) =~= letters.skip(1));
        assert(cs@.subrange(7, 8) =~= letters.take(1));
    }
    params.append(&mut rest);
    assert(params@ =~= seq![ValType::I32] + letter_types(name@.skip(7).skip(1)));
    Some(ImportSig { name: name.to_owned(), params, results })
}

/// The two trampolines of CPython's method calls.
pub open spec fn python_sigs() -> Seq<SigView> {
    let word = ValType::I32;
    seq![
        SigView {
            name: "_PyEM_TrampolineCall_JS"@,
            params: seq![word, word, word, word],
            results: seq![word],
        },
        SigView {
            name: "_PyImport_InitFunc_TrampolineCall"@,
            params: seq![word],
            results: seq![word],
        },
    ]
}

/// The signatures that some names spell, those that are no trampoline names left
/// out.
pub open spec fn spelled(names: Seq<Seq<char>>) -> Seq<SigView>
    decreases names.len(),
{
    if names.len() == 0 {
        Seq::empty()
    } else {
        let name = names.last();
        if starts_with(name, "invoke_"@) && name.len() > 7 {
            spelled(names.drop_last()).push(invoke_sig(name))
        } else {
            spelled(names.drop_last())
        }
    }
}

/// All trampolines with their signatures.
pub fn trampolines() -> (r: Vec<ImportSig>)
    ensures
        sig_views(r@) == python_sigs() + spelled(split_on(INVOKE_NAMES@, ' ')),
{
    let word = ValType::I32;
    let method = ImportSig {
        name: "_PyEM_TrampolineCall_JS".to_owned(),
        params: vec![word, word, word, word],
        results: vec![word],
    };
    let init = ImportSig {
        name: "_PyImport_InitFunc_TrampolineCall".to_owned(),
        params: vec![word],
        results: vec![word],
    };
    proof {
        assert(method@ =~= python_sigs()[0]);
        assert(init@ =~= python_sigs()[1]);
    }
    let mut out: Vec<ImportSig> = Vec::new();
    out.push(method);
    out.push(init);
    assert(sig_views(out@) =~= python_sigs());
    let all = chars_of(INVOKE_NAMES);
    let names = split_chars(&all, ' ');
    let n: usize = names.len();
    let ghost list = split_on(INVOKE_NAMES@, ' ');
    let mut i: usize = 0;
    assert(spelled(list.take(0)) =~= Seq::<SigView>::empty());
    assert(python_sigs() + Seq::<SigView>::empty() =~= python_sigs());
    while i < n
        invariant
            i <= n,
            n == names@.len(),
            texts(names@) == list,
            sig_views(out@) == python_sigs() + spelled(list.take(i as int)),
        decreases n - i,
    {
        let name = string_of(&names[i]);
        let ghost done = sig_views(out@);
        let ghost more = list.take(i + 1);
        proof {
            assert(list[i as int] == names@[i as int]@);
            assert(more.drop_last() =~= list.take(i as int));
            assert(more.last() == name@);
        }
        match invoke_signature(name.as_str()) {
            Some(sig) => {
                out.push(sig);
                assert(sig_views(out@) =~= done.push(sig@));
                assert(python_sigs() + spelled(more) =~= done.push(sig@));
            },
            None => {},
        }
        i = i + 1;
    }
    assert(list.take(n as int) =~= list);
    out
}

/// The imports of a row: one for each word behind the first two, up to `n` words.
pub open spec fn row_sigs(words: Seq<Seq<char>>, n: int) -> Seq<SigView>
    decreases n,
{
    if n <= 2 {
        Seq::empty()
    } else {
        row_sigs(words, n - 1).push(
            SigView {
                name: words[n - 1],
                params: letter_types(words[0]),
                results: letter_types(words[1]),
            },
        )
    }
}

/// The imports of the first `n` rows.
pub open spec fn rows_sigs(rows: Seq<Seq<char>>, n: int) -> Seq<SigView>
    decreases n,
{
    if n <= 0 {
        Seq::empty()
    } else {
        let words = split_on(rows[n - 1], ' ');
        rows_sigs(rows, n - 1) + row_sigs(words, words.len() as int)
    }
}

/// Add the imports of a row.
fn add_row(out: &mut Vec<ImportSig>, row: &Vec<char>)
    ensures
        ({
            let words = split_on(row@, ' ');
            sig_views(final(out)@) == sig_views(old(out)@) + row_sigs(words, words.len() as int)
        }),
{
    let words = split_chars(row, ' ');
    let n: usize = words.len();
    let ghost ws = split_on(row@, ' ');
    let ghost was = sig_views(out@);
    let mut i: usize = 2;
    assert(was + Seq::<SigView>::empty() =~= was);
    while i < n
        invariant
            2 <= i,
            n >= 2 ==> i <= n,
            n == words@.len(),
            texts(words@) == ws,
            was == sig_views(old(out)@),
            i <= n ==> sig_views(out@) == was + row_sigs(ws, i as int),
            n < 2 ==> sig_views(out@) == was,
        decreases n - i,
    {
        let ghost done = sig_views(out@);
        let params = read_types(&words[0]);
        let results = read_types(&words[1]);
        let name = string_of(&words[i]);
        proof {
            assert(ws[0] == words@[0]@);
            assert(ws[1] == words@[1]@);
            assert(ws[i as int] == words@[i as int]@);
        }
        let sig = ImportSig { name, params, results };
        out.push(sig);
        assert(sig_views(out@) =~= done.push(sig@));
        assert(was + row_sigs(ws, i + 1) =~= done.push(sig@));
        i = i + 1;
    }
    proof {
        if n < 2 {
            assert(row_sigs(ws, n as int) =~= Seq::<SigView>::empty());
        }
        assert(was + row_sigs(ws, n as int) =~= sig_views(out@));
    }
}

/// The imports that a table lists. A row, which a semicolon ends, holds words: the
/// letters of the parameters, those of the results (`v` for none), and the names.
pub open spec fn table_sigs(table: Seq<char>) -> Seq<SigView> {
    rows_sigs(split_on(table, ';'), split_on(table, ';').len() as int)
}

/// Read a table of imports.
pub fn read_table(table: &str) -> (r: Vec<ImportSig>)
    ensures
        sig_views(r@) == table_sigs(table@),
{
    let all = chars_of(table);
    let rows = split_chars(&all, ';');
    let n: usize = rows.len();
    let ghost list = split_on(table@, ';');
    let mut out: Vec<ImportSig> = Vec::new();
    let mut i: usize = 0;
    assert(sig_views(out@) =~= Seq::<SigView>::empty());
    while i < n
        invariant
            i <= n,
            n == rows@.len(),
            texts(rows@) == list,
            sig_views(out@) == rows_sigs(list, i as int),
        decreases n - i,
    {
        assert(list[i as int] == rows@[i as int]@);
        add_row(&mut out, &rows[i]);
        i = i + 1;
    }
    out
}

/// The letters of a signature are read one by one, in their order: `i`, `j`, `f` and `d`
/// are the numbers of 32 and 64 bits, without and with a point, `e` is a reference of the
/// embedding that may be null, and any other letter is nothing.
pub proof fn law_letters_are_types(a: Seq<char>, c: char, b: Seq<char>)
    ensures
        letter_types(a + b) == letter_types(a) + letter_types(b),
        letter_types(Seq::empty()).len() == 0,
        letter_types(seq!['i']) == seq![ValType::I32],
        letter_types(seq!['j']) == seq![ValType::I64],
        letter_types(seq!['f']) == seq![ValType::F32],
        letter_types(seq!['d']) == seq![ValType::F64],
        letter_types(seq!['e']) == seq![ValType::Ref { kind: RefKind::Extern, nullable: true }],
        c != 'i' && c != 'j' && c != 'f' && c != 'd' && c != 'e' ==> letter_types(seq![c]).len()
            == 0,
    decreases b.len(),
{
    lemma_one_letter('i');
    lemma_one_letter('j');
    lemma_one_letter('f');
    lemma_one_letter('d');
    lemma_one_letter('e');
    lemma_one_letter(c);
    if b.len() == 0 {
        assert(a + b =~= a);
        assert(letter_types(a) + letter_types(b) =~= letter_types(a));
    } else {
        law_letters_are_types(a, c, b.drop_last());
        assert((a + b).drop_last() =~= a + b.drop_last());
        assert((a + b).last() == b.last());
        let x = letter_types(a);
        let y = letter_types(b.drop_last());
        match letter_type(b.last()) {
            Some(t) => {
                assert((x + y).push(t) =~= x + y.push(t));
            },
            None => {},
        }
    }
}

proof fn lemma_one_letter(c: char)
    ensures
        letter_types(seq![c]) == match letter_type(c) {
            Some(t) => seq![t],
            None => Seq::empty(),
        },
{
    reveal_with_fuel(letter_types, 2);
    assert(seq![c].drop_last() =~= Seq::empty());
    match letter_type(c) {
        Some(t) => {
            assert(Seq::<ValType>::empty().push(t) =~= seq![t]);
        },
        None => {},
    }
}

/// The name of a trampoline spells its signature: the letter behind `invoke_` is that of
/// the result, those behind it are the forwarded parameters, and the slot index comes
/// before them.
pub proof fn law_name_spells_signature(result: char, rest: Seq<char>)
    ensures
        ({
            let name = "invoke_"@ + seq![result] + rest;
            &&& invoke_sig(name).name == name
            &&& invoke_sig(name).results == letter_types(seq![result])
            &&& invoke_sig(name).params.len() == 1 + letter_types(rest).len()
            &&& invoke_sig(name).params[0] == ValType::I32
            &&& invoke_sig(name).params.skip(1) == letter_types(rest)
            &&& starts_with(name, "invoke_"@) && name.len() > 7
        }),
{
    reveal_strlit("invoke_");
    let name = "invoke_"@ + seq![result] + rest;
    let letters = name.skip(7);
    assert(letters.skip(1) =~= rest);
    assert(letters.take(1) =~= seq![result]);
    assert(name.take(7) =~= "invoke_"@);
    assert(invoke_sig(name).params.skip(1) =~= letter_types(rest));
}

/// The names that spell a signature are taken in their order, and others are left out.
pub proof fn law_spelled_in_order(names: Seq<Seq<char>>, name: Seq<char>)
    ensures
        spelled(Seq::empty()).len() == 0,
        starts_with(name, "invoke_"@) && name.len() > 7 ==> spelled(names.push(name)) == spelled(
            names,
        ).push(invoke_sig(name)),
        !(starts_with(name, "invoke_"@) && name.len() > 7) ==> spelled(names.push(name)) == spelled(
            names,
        ),
{
    assert(names.push(name).drop_last() =~= names);
}

/// A row gives one import for each word behind the first two, under that word, with the
/// parameters of the first word and the results of the second.
pub proof fn law_row_gives_names(words: Seq<Seq<char>>, n: int, k: int)
    requires
        2 <= n <= words.len(),
        2 <= k < n,
    ensures
        row_sigs(words, n).len() == n - 2,
        row_sigs(words, n)[k - 2].name == words[k],
        row_sigs(words, n)[k - 2].params == letter_types(words[0]),
        row_sigs(words, n)[k - 2].results == letter_types(words[1]),
    decreases n,
{
    lemma_row_len(words, n);
    if k < n - 1 {
        lemma_row_len(words, n - 1);
        law_row_gives_names(words, n - 1, k);
    } else {
        lemma_row_len(words, n - 1);
    }
}

proof fn lemma_row_len(words: Seq<Seq<char>>, n: int)
    requires
        2 <= n,
    ensures
        row_sigs(words, n).len() == n - 2,
    decreases n,
{
    if n > 2 {
        lemma_row_len(words, n - 1);
    }
}

/// A table gives the imports of its rows, in their order: one more row adds its own
/// behind those of the others.
pub proof fn law_table_gives_rows(table: Seq<char>, row: Seq<char>)
    requires
        !row.contains(';'),
    ensures
        table_sigs(table.push(';') + row) == table_sigs(table) + row_sigs(
            split_on(row, ' '),
            split_on(row, ' ').len() as int,
        ),
{
    lemma_split_append(table, ';', row);
    let rows = split_on(table, ';');
    let all = split_on(table.push(';') + row, ';');
    assert(all == rows.push(row));
    lemma_rows_front(rows, row, rows.len() as int);
}

proof fn lemma_rows_front(rows: Seq<Seq<char>>, row: Seq<char>, n: int)
    requires
        n <= rows.len(),
    ensures
        rows_sigs(rows.push(row), n) == rows_sigs(rows, n),
    decreases n,
{
    if n > 0 {
        lemma_rows_front(rows, row, n - 1);
    }
}

} // verus!
