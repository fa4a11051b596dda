//! The script behind a columnar call of a Python function.
//!
//! A batch of columns crosses into the interpreter as a file: the host writes the
//! encoded batch to `/data/input.bin`, runs a script and reads the encoded result
//! from `/data/output.bin`. The script is the caller's source between two fixed
//! parts, the helpers that decode and encode a batch, and a driver that calls the
//! entry function once with the whole batch.

use vstd::prelude::*;

use crate::text::{
    chars_of, concat, decimal_signed, push_signed, string_from_utf8_lossy, utf8_lossy,
};

verus! {

/// The file that the encoded batch is written to.
pub const INPUT_FILE: &'static str = "input.bin";

/// The file that the encoded result is read from.
pub const OUTPUT_FILE: &'static str = "output.bin";

/// Where the directory of both files is mounted.
pub const GUEST_MOUNT: &'static str = "/data";

/// The helpers that decode and encode a batch, defined ahead of the caller's
/// source.
pub const PY_COLUMNAR_PREAMBLE: &'static str = r#"
import struct as _ab_struct

_AB_HEADER = 16
_AB_COL_HDR = 32
_AB_DTYPE_FMT = {1:'B',2:'b',3:'h',4:'i',5:'q',6:'B',7:'H',8:'I',9:'Q',10:'f',11:'d',13:'i',14:'q'}
_AB_VARWIDTH = (12, 18, 19)
_AB_INLINE_MAX = 12
_AB_SLOT = 16


class _AbConstantColumn:
    """O(1) broadcast view: every index 0..row_count reads the same
    value. Mirrors the JS dispatcher's Proxy-based constant column."""

    __slots__ = ("_value", "_row_count")

    def __init__(self, value, row_count):
        self._value = value
        self._row_count = row_count

    def __len__(self):
        return self._row_count

    def __getitem__(self, i):
        if isinstance(i, slice):
            return [self._value for _ in range(*i.indices(self._row_count))]
        if 0 <= i < self._row_count:
            return self._value
        raise IndexError("constant column index out of range")

    def __iter__(self):
        for _ in range(self._row_count):
            yield self._value


def _ab_dtype_size(dtype):
    if dtype in (1, 2, 6):
        return 1
    if dtype in (3, 7):
        return 2
    if dtype in (4, 8, 10, 13):
        return 4
    if dtype in (5, 9, 11, 14):
        return 8
    raise ValueError("columnar UDF: unknown fixed-width dtype " + str(dtype))


def _ab_decode_batch(blob):
    row_count, column_count, columns_offset, _reserved = _ab_struct.unpack_from('<IIII', blob, 0)
    columns = {}
    for i in range(column_count):
        off = columns_offset + i * _AB_COL_HDR
        dtype = blob[off]
        data_off, validity_off, name_off, name_len, heap_off, heap_len, is_constant = \
            _ab_struct.unpack_from('<IIIIIII', blob, off + 4)
        name = bytes(blob[name_off:name_off + name_len]).decode('utf-8')
        count = 1 if is_constant else row_count
        if dtype in _AB_VARWIDTH:
            heap = blob[heap_off:heap_off + heap_len] if heap_len else b''
            values = []
            for r in range(count):
                sb = data_off + r * _AB_SLOT
                (slen,) = _ab_struct.unpack_from('<I', blob, sb)
                if slen <= _AB_INLINE_MAX:
                    raw = bytes(blob[sb + 4:sb + 4 + slen])
                else:
                    (hoff,) = _ab_struct.unpack_from('<I', blob, sb + 12)
                    raw = bytes(heap[hoff:hoff + slen])
                values.append(raw.decode('utf-8') if dtype == 12 else raw)
        else:
            fmt = _AB_DTYPE_FMT.get(dtype)
            if fmt is None:
                raise ValueError("columnar UDF: unsupported dtype tag " + str(dtype) + " for column '" + name + "'")
            raw_vals = list(_ab_struct.unpack_from('<' + fmt * count, blob, data_off))
            values = [bool(v) for v in raw_vals] if dtype == 1 else raw_vals
        columns[name] = _AbConstantColumn(values[0], row_count) if is_constant else values
    return row_count, columns


def _ab_align8(x):
    return (x + 7) & ~7


def _ab_classify(name, v):
    if len(v) == 0:
        raise ValueError("columnar UDF: column '" + name + "' is empty; output dtype cannot be inferred")
    sample = v[0]
    if isinstance(sample, bool):
        return 1, False
    if isinstance(sample, int):
        return 5, False
    if isinstance(sample, float):
        return 11, False
    if isinstance(sample, str):
        return 12, True
    if isinstance(sample, (bytes, bytearray)):
        return 18, True
    raise TypeError("columnar UDF: column '" + name + "' has unsupported element type " + type(sample).__name__)


def _ab_encode_batch(row_count, out_columns):
    metas = []
    for name, v in out_columns.items():
        v = list(v)
        if len(v) != row_count:
            raise ValueError("columnar UDF: column '" + name + "' length " + str(len(v)) + " != row_count " + str(row_count))
        dtype, is_var = _ab_classify(name, v)
        if is_var:
            slots = bytearray(row_count * _AB_SLOT)
            heap = bytearray()
            for r, item in enumerate(v):
                raw = item.encode('utf-8') if dtype == 12 else bytes(item)
                sb = r * _AB_SLOT
                _ab_struct.pack_into('<I', slots, sb, len(raw))
                if len(raw) <= _AB_INLINE_MAX:
                    slots[sb + 4:sb + 4 + len(raw)] = raw
                else:
                    slots[sb + 4:sb + 8] = raw[0:4]
                    _ab_struct.pack_into('<I', slots, sb + 12, len(heap))
                    heap += raw
            metas.append((name, dtype, bytes(slots), bytes(heap)))
        else:
            fmt = _AB_DTYPE_FMT[dtype]
            if dtype in (10, 11):
                packed = _ab_struct.pack('<' + fmt * row_count, *[float(x) for x in v])
            elif dtype == 1:
                packed = _ab_struct.pack('<' + fmt * row_count, *[1 if x else 0 for x in v])
            else:
                packed = _ab_struct.pack('<' + fmt * row_count, *[int(x) for x in v])
            metas.append((name, dtype, packed, b''))

    header_end = _AB_HEADER
    col_table_end = header_end + len(metas) * _AB_COL_HDR
    cursor = _ab_align8(col_table_end)
    layouts = []
    for name, dtype, data, heap in metas:
        cursor = _ab_align8(cursor)
        data_off = cursor
        cursor += len(data)
        name_bytes = name.encode('utf-8')
        name_off = cursor
        cursor += len(name_bytes)
        heap_off = 0
        if len(heap) > 0:
            heap_off = cursor
            cursor += len(heap)
        layouts.append((dtype, data_off, name_off, name_bytes, heap_off, len(heap), data, heap))

    out = bytearray(cursor)
    _ab_struct.pack_into('<IIII', out, 0, row_count, len(metas), header_end, 0)
    h = header_end
    for dtype, data_off, name_off, name_bytes, heap_off, heap_len, _data, _heap in layouts:
        out[h] = dtype
        _ab_struct.pack_into('<IIIIIII', out, h + 4, data_off, 0, name_off, len(name_bytes), heap_off, heap_len, 0)
        h += _AB_COL_HDR
    for _dtype, data_off, name_off, name_bytes, heap_off, heap_len, data, heap in layouts:
        out[data_off:data_off + len(data)] = data
        out[name_off:name_off + len(name_bytes)] = name_bytes
        if heap_len > 0:
            out[heap_off:heap_off + heap_len] = heap
    return bytes(out)
"#;

/// The driver that follows the caller's source: it reads the batch, calls
/// `entry_fn`, checks the shape of what came back, and writes it out.
pub open spec fn driver(entry_fn: Seq<char>) -> Seq<char> {
    DRIVER_HEAD@ + entry_fn + DRIVER_TAIL@
}

/// The driver up to the name of the entry function.
pub const DRIVER_HEAD: &'static str = r#"
with open('/data/input.bin', 'rb') as _ab_f:
    _ab_blob = _ab_f.read()
_ab_row_count, _ab_columns = _ab_decode_batch(_ab_blob)
_ab_result = "#;

/// The driver from the call's arguments on.
pub const DRIVER_TAIL: &'static str = r#"({'row_count': _ab_row_count, 'columns': _ab_columns})
if not isinstance(_ab_result, dict) or 'row_count' not in _ab_result or 'columns' not in _ab_result:
    raise ValueError("columnar UDF: result must be a dict with 'row_count' and 'columns'")
_ab_out_bytes = _ab_encode_batch(_ab_result['row_count'], _ab_result['columns'])
with open('/data/output.bin', 'wb') as _ab_f:
    _ab_f.write(_ab_out_bytes)
"#;

/// A letter or an underscore.
pub open spec fn starts_identifier(c: char) -> bool {
    'a' <= c <= 'z' || 'A' <= c <= 'Z' || c == '_'
}

/// A name made of ASCII letters, digits and underscores that does not begin with a
/// digit.
pub open spec fn is_identifier(name: Seq<char>) -> bool {
    &&& name.len() > 0
    &&& starts_identifier(name[0])
    &&& forall|i: int|
        0 <= i < name.len() ==> starts_identifier(#[trigger] name[i]) || '0' <= name[i] <= '9'
}

/// The message for an entry function whose name is no identifier.
pub open spec fn bad_name_text(entry_fn: Seq<char>) -> Seq<char> {
    "columnar entry function '"@ + entry_fn + "' is not a valid identifier"@
}

/// Check that the name of an entry function is an identifier, so that it can go
/// into the driver as it is.
pub fn validate_entry_fn_name(entry_fn: &str) -> (r: Result<(), String>)
    ensures
        r is Ok <==> is_identifier(entry_fn@),
        r matches Err(message) ==> message@ == bad_name_text(entry_fn@),
{
    let cs = chars_of(entry_fn);
    let n: usize = cs.len();
    let mut good = n > 0 && !('0' <= cs[0] && cs[0] <= '9');
    let mut i: usize = 0;
    while i < n && good
        invariant
            i <= n,
            n == cs@.len(),
            cs@ == entry_fn@,
            good ==> n > 0 && !('0' <= cs@[0] <= '9'),
            good ==> forall|k: int|
                0 <= k < i ==> starts_identifier(#[trigger] cs@[k]) || '0' <= cs@[k] <= '9',
            !good ==> !is_identifier(entry_fn@),
        decreases n - i,
    {
        let c: char = cs[i];
        let letter = ('a' <= c && c <= 'z') || ('A' <= c && c <= 'Z') || c == '_';
        good = letter || ('0' <= c && c <= '9');
        assert(letter == starts_identifier(cs@[i as int]));
        i = i + 1;
    }
    if good {
        Ok(())
    } else {
        let mut s = concat("columnar entry function '", entry_fn);
        s.append("' is not a valid identifier");
        Err(s)
    }
}

/// Build the driver. The name goes into the call as it is: only an identifier
/// makes a driver that runs.
pub fn py_columnar_driver(entry_fn: &str) -> (r: String)
    ensures
        r@ == driver(entry_fn@),
{
    let mut s = concat(DRIVER_HEAD, entry_fn);
    s.append(DRIVER_TAIL);
    s
}

/// The whole script around the caller's source.
pub open spec fn script(source: Seq<char>, entry_fn: Seq<char>) -> Seq<char> {
    PY_COLUMNAR_PREAMBLE@ + "\n"@ + source + "\n"@ + driver(entry_fn)
}

/// A script holds the caller's source as it is, in lines of its own behind the helpers,
/// and then calls the entry function by its name.
pub proof fn law_script_holds_source(source: Seq<char>, entry_fn: Seq<char>)
    ensures
        ({
            let s = script(source, entry_fn);
            let from = PY_COLUMNAR_PREAMBLE@.len() + 1;
            let to = from + source.len();
            let call = to + 1 + DRIVER_HEAD@.len();
            &&& s.take(from as int - 1) == PY_COLUMNAR_PREAMBLE@
            &&& s[from as int - 1] == '\n'
            &&& s.subrange(from as int, to as int) == source
            &&& s[to as int] == '\n'
            &&& s.subrange(to as int + 1, call as int) == DRIVER_HEAD@
            &&& s.subrange(call as int, call as int + entry_fn.len()) == entry_fn
            &&& s.skip(call as int + entry_fn.len()) == DRIVER_TAIL@
        }),
{
    reveal_strlit("\n");
    let s = script(source, entry_fn);
    let from = PY_COLUMNAR_PREAMBLE@.len() + 1;
    let to = from + source.len();
    let call = to + 1 + DRIVER_HEAD@.len();
    assert(s.take(from as int - 1) =~= PY_COLUMNAR_PREAMBLE@);
    assert(s.subrange(from as int, to as int) =~= source);
    assert(s.subrange(to as int + 1, call as int) =~= DRIVER_HEAD@);
    assert(s.subrange(call as int, call as int + entry_fn.len()) =~= entry_fn);
    assert(s.skip(call as int + entry_fn.len()) =~= DRIVER_TAIL@);
}

/// A name goes into a script only if it is one or more letters, digits and underscores of
/// ASCII, the first of them no digit: so it holds no quote, bracket, blank or line break.
pub proof fn law_identifiers_are_plain(name: Seq<char>, i: int)
    ensures
        name.len() == 0 ==> !is_identifier(name),
        name.len() > 0 && '0' <= name[0] <= '9' ==> !is_identifier(name),
        0 <= i < name.len() && is_identifier(name) ==> ('a' <= name[i] <= 'z') || ('A' <= name[i]
            <= 'Z') || ('0' <= name[i] <= '9') || name[i] == '_',
        name.len() == 1 && (('a' <= name[0] <= 'z') || ('A' <= name[0] <= 'Z') || name[0] == '_')
            ==> is_identifier(name),
        is_identifier(name) && (('a' <= name[0] <= 'z') || ('0' <= name[0] <= '9') || ('A'
            <= name[0] <= 'Z') || name[0] == '_') ==> is_identifier(name.push('_'))
            && is_identifier(name.push('0')) && !is_identifier(name.push(' ')),
{
    if is_identifier(name) {
        let under = name.push('_');
        let zero = name.push('0');
        assert forall|k: int| 0 <= k < under.len() implies starts_identifier(#[trigger] under[k])
            || '0' <= under[k] <= '9' by {
            if k < name.len() {
                assert(under[k] == name[k]);
            }
        }
        assert forall|k: int| 0 <= k < zero.len() implies starts_identifier(#[trigger] zero[k])
            || '0' <= zero[k] <= '9' by {
            if k < name.len() {
                assert(zero[k] == name[k]);
            }
        }
        let blank = name.push(' ');
        assert(blank[name.len() as int] == ' ');
        if is_identifier(blank) {
            assert(starts_identifier(blank[name.len() as int]) || '0' <= blank[name.len() as int]
                <= '9');
        }
    }
}

/// Build the whole script: helpers, the caller's source and the driver, one after
/// the other. A name that is no identifier is refused before anything is run.
pub fn full_source(python_source: &str, entry_fn: &str) -> (r: Result<String, String>)
    ensures
        if is_identifier(entry_fn@) {
            r is Ok && r->Ok_0@ == script(python_source@, entry_fn@)
        } else {
            r is Err && r->Err_0@ == bad_name_text(entry_fn@)
        },
{
    match validate_entry_fn_name(entry_fn) {
        Err(message) => {
            return Err(message);
        },
        Ok(()) => {},
    }
    let mut s = concat(PY_COLUMNAR_PREAMBLE, "\n");
    s.append(python_source);
    s.append("\n");
    let tail = py_columnar_driver(entry_fn);
    s.append(tail.as_str());
    Ok(s)
}

/// The message for a run that did not end with exit code 0.
pub open spec fn exit_text(entry_fn: Seq<char>, code: i32, stderr: Seq<char>) -> Seq<char> {
    "columnar python UDF '"@ + entry_fn + "' exited "@ + decimal_signed(code as int) + ": "@
        + stderr
}

/// Judge a finished run by its exit code, given the text of its standard error:
/// `Ok` exactly for 0.
pub fn run_outcome(entry_fn: &str, code: i32, stderr: &str) -> (r: Result<(), String>)
    ensures
        r is Ok <==> code == 0,
        r matches Err(message) ==> message@ == exit_text(entry_fn@, code, stderr@),
{
    if code == 0 {
        return Ok(());
    }
    let mut s = concat("columnar python UDF '", entry_fn);
    s.append("' exited ");
    push_signed(&mut s, code as i64);
    s.append(": ");
    s.append(stderr);
    Err(s)
}

/// Judge a finished run by its exit code. What the guest wrote to standard error
/// goes into the message, with ill-formed bytes replaced.
pub fn check_run(entry_fn: &str, code: i32, stderr: &[u8]) -> (r: Result<(), String>)
    ensures
        r is Ok <==> code == 0,
        r matches Err(message) ==> message@ == exit_text(entry_fn@, code, utf8_lossy(stderr@)),
{
    let text = string_from_utf8_lossy(stderr);
    run_outcome(entry_fn, code, text.as_str())
}

/// The message for a run that left no result, given where it was looked for and
/// why it could not be read.
pub fn no_output_message(entry_fn: &str, path: &str, reason: &str) -> (r: String)
    ensures
        r@ == "columnar python UDF '"@ + entry_fn@ + "' produced no output ("@ + path@ + ": "@
            + reason@ + ")"@,
{
    let mut s = concat("columnar python UDF '", entry_fn);
    s.append("' produced no output (");
    s.append(path);
    s.append(": ");
    s.append(reason);
    s.append(")");
    s
}

} // verus!
