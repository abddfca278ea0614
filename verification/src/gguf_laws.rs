//! What holds of every model file: what was written is read back, and a tensor has as
//! many bytes as its dimensions ask for.

use crate::gguf::{
    alignment, data_position, elements, layout, parse_dims, parse_entries, parse_entry, parse_file,
    parse_string, parse_tensor, parse_tensors, parse_value, parse_values, room, tensor_bytes,
    GgufError, GgufView, Meta, TensorView,
};
use crate::le_bytes::{le_u16, le_u32, le_u64};
use vstd::prelude::*;
use vstd::utf8::encode_utf8;

verus! {

/// The bytes of a 16-bit number, the lowest first.
#[verifier::opaque]
pub open spec fn two_bytes(v: int) -> Seq<u8> {
    seq![(v % 256) as u8, (v / 256 % 256) as u8]
}

/// The bytes of a 32-bit number, the lowest first.
#[verifier::opaque]
pub open spec fn four_bytes(v: int) -> Seq<u8> {
    seq![
        (v % 256) as u8,
        (v / 256 % 256) as u8,
        (v / 256 / 256 % 256) as u8,
        (v / 256 / 256 / 256 % 256) as u8,
    ]
}

/// The bytes of a 64-bit number, the lowest first.
#[verifier::opaque]
pub open spec fn eight_bytes(v: int) -> Seq<u8> {
    four_bytes(v % 0x1_0000_0000) + four_bytes(v / 0x1_0000_0000)
}

/// A text: the number of its bytes, and then these.
pub open spec fn text_bytes(s: Seq<char>) -> Seq<u8> {
    eight_bytes(encode_utf8(s).len() as int) + encode_utf8(s)
}

/// The number of a value's type.
pub open spec fn type_of(v: Meta) -> u32 {
    match v {
        Meta::U8(_) => 0,
        Meta::I8(_) => 1,
        Meta::U16(_) => 2,
        Meta::I16(_) => 3,
        Meta::U32(_) => 4,
        Meta::I32(_) => 5,
        Meta::F32(_) => 6,
        Meta::Bool(_) => 7,
        Meta::Str(_) => 8,
        Meta::Arr(_) => 9,
        Meta::U64(_) => 10,
        Meta::I64(_) => 11,
        Meta::F64(_) => 12,
    }
}

/// The bytes of a value. An array is written as the type of its elements, their number,
/// and the elements one after the other.
pub open spec fn value_bytes(v: Meta) -> Seq<u8>
    decreases v, 0nat,
{
    match v {
        Meta::U8(v) => seq![v],
        Meta::I8(v) => seq![(v as int % 0x100) as u8],
        Meta::U16(v) => two_bytes(v as int),
        Meta::I16(v) => two_bytes(v as int % 0x1_0000),
        Meta::U32(v) => four_bytes(v as int),
        Meta::I32(v) => four_bytes(v as int % 0x1_0000_0000),
        Meta::F32(v) => four_bytes(v as int),
        Meta::Bool(v) => seq![
            if v {
                1u8
            } else {
                0u8
            },
        ],
        Meta::Str(s) => text_bytes(s),
        Meta::Arr(items) => four_bytes(
            if items.len() > 0 {
                type_of(items[0]) as int
            } else {
                0
            },
        ) + eight_bytes(items.len() as int) + items_bytes(items, 0),
        Meta::U64(v) => eight_bytes(v as int),
        Meta::I64(v) => eight_bytes(v as int % 0x1_0000_0000_0000_0000),
        Meta::F64(v) => eight_bytes(v as int),
    }
}

/// The bytes of the values from `k` on, one after the other.
pub open spec fn items_bytes(items: Seq<Meta>, k: nat) -> Seq<u8>
    decreases items, items.len() - k,
{
    if k < items.len() {
        value_bytes(items[k as int]) + items_bytes(items, k + 1)
    } else {
        seq![]
    }
}

/// A value can be written: the elements of each array are of one type, and there is a
/// number for every length.
pub open spec fn writable(v: Meta) -> bool
    decreases v,
{
    match v {
        Meta::Str(s) => encode_utf8(s).len() <= u64::MAX,
        Meta::Arr(items) => {
            &&& items.len() <= u64::MAX
            &&& forall|i: int|
                0 <= i < items.len() ==> type_of(#[trigger] items[i]) == type_of(items[0])
                    && writable(items[i])
        },
        _ => true,
    }
}

/// The bytes stand at a position.
#[verifier::opaque]
pub open spec fn stand_at(b: Seq<u8>, pos: nat, bytes: Seq<u8>) -> bool {
    pos + bytes.len() <= b.len() && b.subrange(pos as int, (pos + bytes.len()) as int) == bytes
}

proof fn lemma_parts(b: Seq<u8>, pos: nat, x: Seq<u8>, y: Seq<u8>)
    requires
        stand_at(b, pos, x + y),
    ensures
        stand_at(b, pos, x),
        stand_at(b, pos + x.len(), y),
        pos + x.len() + y.len() <= b.len(),
{
    reveal(stand_at);
    let all = b.subrange(pos as int, (pos + (x + y).len()) as int);
    assert(b.subrange(pos as int, (pos + x.len()) as int) =~= x) by {
        assert forall|i: int| 0 <= i < x.len() implies b[pos + i] == x[i] by {
            assert(all[i] == (x + y)[i]);
        }
    }
    assert(b.subrange((pos + x.len()) as int, (pos + x.len() + y.len()) as int) =~= y) by {
        assert forall|i: int| 0 <= i < y.len() implies b[pos + x.len() + i] == y[i] by {
            assert(all[x.len() + i] == (x + y)[x.len() + i]);
        }
    }
}

proof fn lemma_byte_at(b: Seq<u8>, pos: nat, bytes: Seq<u8>, i: int)
    requires
        stand_at(b, pos, bytes),
        0 <= i < bytes.len(),
    ensures
        b[pos + i] == bytes[i],
        pos + bytes.len() <= b.len(),
{
    reveal(stand_at);
    assert(b.subrange(pos as int, (pos + bytes.len()) as int)[i] == b[pos + i]);
}

proof fn lemma_two(b: Seq<u8>, pos: nat, v: int)
    requires
        0 <= v < 0x1_0000,
        stand_at(b, pos, two_bytes(v)),
    ensures
        le_u16(b, pos as int) == v,
        two_bytes(v).len() == 2,
        pos + 2 <= b.len(),
{
    reveal(two_bytes);
    lemma_byte_at(b, pos, two_bytes(v), 0);
    lemma_byte_at(b, pos, two_bytes(v), 1);
}

proof fn lemma_four(b: Seq<u8>, pos: nat, v: int)
    requires
        0 <= v < 0x1_0000_0000,
        stand_at(b, pos, four_bytes(v)),
    ensures
        le_u32(b, pos as int) == v,
        four_bytes(v).len() == 4,
        pos + 4 <= b.len(),
{
    reveal(four_bytes);
    lemma_byte_at(b, pos, four_bytes(v), 0);
    lemma_byte_at(b, pos, four_bytes(v), 1);
    lemma_byte_at(b, pos, four_bytes(v), 2);
    lemma_byte_at(b, pos, four_bytes(v), 3);
}

proof fn lemma_eight(b: Seq<u8>, pos: nat, v: int)
    requires
        0 <= v < 0x1_0000_0000_0000_0000,
        stand_at(b, pos, eight_bytes(v)),
    ensures
        le_u64(b, pos as int) == v,
        eight_bytes(v).len() == 8,
        pos + 8 <= b.len(),
{
    reveal(eight_bytes);
    lemma_parts(b, pos, four_bytes(v % 0x1_0000_0000), four_bytes(v / 0x1_0000_0000));
    lemma_four(b, pos, v % 0x1_0000_0000);
    assert(four_bytes(v % 0x1_0000_0000).len() == 4);
    lemma_four(b, pos + 4, v / 0x1_0000_0000);
}

proof fn lemma_text(b: Seq<u8>, pos: nat, s: Seq<char>)
    requires
        encode_utf8(s).len() <= u64::MAX,
        stand_at(b, pos, text_bytes(s)),
    ensures
        parse_string(b, pos) == Ok::<(Seq<char>, nat), GgufError>((s, pos + text_bytes(s).len())),
{
    let body = encode_utf8(s);
    lemma_parts(b, pos, eight_bytes(body.len() as int), body);
    lemma_eight(b, pos, body.len() as int);
    assert(stand_at(b, pos + 8, body));
    assert(b.subrange(pos as int + 8, pos as int + 8 + body.len()) == body) by {
        reveal(stand_at);
    }
    vstd::utf8::encode_utf8_valid_utf8(s);
    vstd::utf8::encode_utf8_decode_utf8(s);
}

proof fn lemma_value(b: Seq<u8>, pos: nat, v: Meta)
    requires
        writable(v),
        stand_at(b, pos, value_bytes(v)),
    ensures
        parse_value(b, pos, type_of(v)) == Ok::<(Meta, nat), GgufError>(
            (v, value_bytes(v).len()),
        ),
    decreases v, 0nat,
{
    let bytes = value_bytes(v);
    match v {
        Meta::U8(w) => lemma_byte_at(b, pos, bytes, 0),
        Meta::I8(w) => {
            lemma_byte_at(b, pos, bytes, 0);
        },
        Meta::U16(w) => lemma_two(b, pos, w as int),
        Meta::I16(w) => lemma_two(b, pos, w as int % 0x1_0000),
        Meta::U32(w) => lemma_four(b, pos, w as int),
        Meta::I32(w) => lemma_four(b, pos, w as int % 0x1_0000_0000),
        Meta::F32(w) => lemma_four(b, pos, w as int),
        Meta::Bool(w) => lemma_byte_at(b, pos, bytes, 0),
        Meta::Str(s) => lemma_text(b, pos, s),
        Meta::Arr(items) => {
            let ty = if items.len() > 0 {
                type_of(items[0])
            } else {
                0
            };
            let head = four_bytes(ty as int) + eight_bytes(items.len() as int);
            lemma_parts(b, pos, head, items_bytes(items, 0));
            lemma_parts(b, pos, four_bytes(ty as int), eight_bytes(items.len() as int));
            lemma_four(b, pos, ty as int);
            lemma_eight(b, pos + 4, items.len() as int);
            assert(items.take(0) =~= seq![]);
            lemma_items(b, pos + 12, ty, items, 0);
            assert(bytes == head + items_bytes(items, 0));
            assert(crate::gguf::fixed_size(9) is None);
        },
        Meta::U64(w) => lemma_eight(b, pos, w as int),
        Meta::I64(w) => lemma_eight(b, pos, w as int % 0x1_0000_0000_0000_0000),
        Meta::F64(w) => lemma_eight(b, pos, w as int),
    }
}

proof fn lemma_items(b: Seq<u8>, pos: nat, ty: u32, items: Seq<Meta>, k: nat)
    requires
        k <= items.len(),
        forall|i: int|
            0 <= i < items.len() ==> type_of(#[trigger] items[i]) == ty && writable(items[i]),
        stand_at(b, pos, items_bytes(items, k)),
    ensures
        parse_values(b, pos, ty, (items.len() - k) as nat, items.take(k as int)) == Ok::<
            (Seq<Meta>, nat),
            GgufError,
        >((items, pos + items_bytes(items, k).len())),
    decreases items, items.len() - k,
{
    if k < items.len() {
        let v = items[k as int];
        lemma_parts(b, pos, value_bytes(v), items_bytes(items, k + 1));
        lemma_value(b, pos, v);
        lemma_items(b, pos + value_bytes(v).len(), ty, items, k + 1);
        assert(items.take(k as int).push(v) =~= items.take(k as int + 1));
    } else {
        assert(items.take(k as int) =~= items);
    }
}

/// A value that was written is read back, and what stands around it does not matter.
pub proof fn written_values_are_read(before: Seq<u8>, v: Meta, after: Seq<u8>)
    requires
        writable(v),
    ensures
        parse_value(before + value_bytes(v) + after, before.len(), type_of(v)) == Ok::<
            (Meta, nat),
            GgufError,
        >((v, value_bytes(v).len())),
{
    let b = before + value_bytes(v) + after;
    reveal(stand_at);
    assert(b.subrange(before.len() as int, (before.len() + value_bytes(v).len()) as int) =~= value_bytes(v));
    lemma_value(b, before.len(), v);
}

/// The bytes of a metadata entry: its key, its type and its value.
pub open spec fn entry_bytes(e: (Seq<char>, Meta)) -> Seq<u8> {
    text_bytes(e.0) + four_bytes(type_of(e.1) as int) + value_bytes(e.1)
}

/// The bytes of the entries from `k` on.
pub open spec fn entries_bytes(entries: Seq<(Seq<char>, Meta)>, k: nat) -> Seq<u8>
    decreases entries.len() - k,
{
    if k < entries.len() {
        entry_bytes(entries[k as int]) + entries_bytes(entries, k + 1)
    } else {
        seq![]
    }
}

/// The map holds what a list of entries says: the keys of the list, each with what
/// the last entry of that key says.
#[verifier::opaque]
pub open spec fn holds_last<V>(m: Map<Seq<char>, V>, list: Seq<(Seq<char>, V)>, n: int) -> bool {
    &&& forall|key: Seq<char>| #[trigger]
        m.contains_key(key) ==> exists|i: int| 0 <= i < n && (#[trigger] list[i]).0 == key
    &&& forall|i: int|
        0 <= i < n && (forall|j: int| i < j < n ==> (#[trigger] list[j]).0 != list[i].0)
            ==> m.contains_key((#[trigger] list[i]).0) && m[list[i].0] == list[i].1
}

proof fn lemma_one_more<V>(m: Map<Seq<char>, V>, list: Seq<(Seq<char>, V)>, n: int)
    requires
        0 <= n < list.len(),
        holds_last(m, list, n),
    ensures
        holds_last(m.insert(list[n].0, list[n].1), list, n + 1),
{
    reveal(holds_last);
    let more = m.insert(list[n].0, list[n].1);
    assert forall|key: Seq<char>| #[trigger] more.contains_key(key) implies exists|i: int|
        0 <= i < n + 1 && (#[trigger] list[i]).0 == key by {
        if key == list[n].0 {
        } else {
            assert(m.contains_key(key));
        }
    }
    assert forall|i: int|
        0 <= i < n + 1 && (forall|j: int| i < j < n + 1 ==> (#[trigger] list[j]).0 != list[i].0) implies more.contains_key(
    (#[trigger] list[i]).0) && more[list[i].0] == list[i].1 by {
        if i < n {
            assert(list[n].0 != list[i].0);
        }
    }
}

proof fn lemma_none<V>(list: Seq<(Seq<char>, V)>)
    ensures
        holds_last(Map::<Seq<char>, V>::empty(), list, 0),
{
    reveal(holds_last);
}

proof fn lemma_entry(b: Seq<u8>, pos: nat, e: (Seq<char>, Meta))
    requires
        encode_utf8(e.0).len() <= u64::MAX,
        writable(e.1),
        stand_at(b, pos, entry_bytes(e)),
    ensures
        parse_entry(b, pos) == Ok::<((Seq<char>, Meta), nat), GgufError>(
            (e, pos + entry_bytes(e).len()),
        ),
{
    let head = text_bytes(e.0) + four_bytes(type_of(e.1) as int);
    lemma_parts(b, pos, head, value_bytes(e.1));
    lemma_parts(b, pos, text_bytes(e.0), four_bytes(type_of(e.1) as int));
    lemma_text(b, pos, e.0);
    lemma_four(b, pos + text_bytes(e.0).len(), type_of(e.1) as int);
    lemma_value(b, pos + head.len(), e.1);
}

proof fn lemma_entries(
    b: Seq<u8>,
    pos: nat,
    list: Seq<(Seq<char>, Meta)>,
    k: nat,
    done: Map<Seq<char>, Meta>,
) -> (m: Map<Seq<char>, Meta>)
    requires
        k <= list.len(),
        forall|i: int|
            0 <= i < list.len() ==> encode_utf8((#[trigger] list[i]).0).len() <= u64::MAX
                && writable(list[i].1),
        holds_last(done, list, k as int),
        stand_at(b, pos, entries_bytes(list, k)),
    ensures
        holds_last(m, list, list.len() as int),
        parse_entries(b, pos, (list.len() - k) as nat, done) == Ok::<
            (Map<Seq<char>, Meta>, nat),
            GgufError,
        >((m, pos + entries_bytes(list, k).len())),
    decreases list.len() - k,
{
    if k < list.len() {
        let e = list[k as int];
        lemma_parts(b, pos, entry_bytes(e), entries_bytes(list, k + 1));
        lemma_entry(b, pos, e);
        lemma_one_more(done, list, k as int);
        lemma_entries(b, pos + entry_bytes(e).len(), list, k + 1, done.insert(e.0, e.1))
    } else {
        done
    }
}

/// The bytes of dimensions from `k` on.
pub open spec fn dims_bytes(dims: Seq<u64>, k: nat) -> Seq<u8>
    decreases dims.len() - k,
{
    if k < dims.len() {
        eight_bytes(dims[k as int] as int) + dims_bytes(dims, k + 1)
    } else {
        seq![]
    }
}

/// The bytes of a tensor's entry: its name, the number of its dimensions, these, its
/// type and its offset.
pub open spec fn tensor_entry_bytes(t: (Seq<char>, TensorView)) -> Seq<u8> {
    text_bytes(t.0) + four_bytes(t.1.dims.len() as int) + dims_bytes(t.1.dims, 0) + four_bytes(
        t.1.ggml_type as int,
    ) + eight_bytes(t.1.offset as int)
}

/// The bytes of tensor entries from `k` on.
pub open spec fn tensors_bytes(tensors: Seq<(Seq<char>, TensorView)>, k: nat) -> Seq<u8>
    decreases tensors.len() - k,
{
    if k < tensors.len() {
        tensor_entry_bytes(tensors[k as int]) + tensors_bytes(tensors, k + 1)
    } else {
        seq![]
    }
}

/// A tensor's entry can be written, and its bytes are as many as its elements take.
pub open spec fn writable_tensor(t: (Seq<char>, TensorView)) -> bool {
    &&& encode_utf8(t.0).len() <= u64::MAX
    &&& t.1.dims.len() <= u32::MAX
    &&& tensor_bytes(t.1.dims, t.1.ggml_type) == Ok::<u64, GgufError>(t.1.nbytes)
}

proof fn lemma_dims(b: Seq<u8>, pos: nat, dims: Seq<u64>, k: nat)
    requires
        k <= dims.len(),
        stand_at(b, pos, dims_bytes(dims, k)),
    ensures
        parse_dims(b, pos, (dims.len() - k) as nat, dims.take(k as int)) == Ok::<
            (Seq<u64>, nat),
            GgufError,
        >((dims, pos + dims_bytes(dims, k).len())),
    decreases dims.len() - k,
{
    if k < dims.len() {
        let d = dims[k as int];
        lemma_parts(b, pos, eight_bytes(d as int), dims_bytes(dims, k + 1));
        lemma_eight(b, pos, d as int);
        lemma_dims(b, pos + 8, dims, k + 1);
        assert(dims.take(k as int).push(d) =~= dims.take(k as int + 1));
    } else {
        assert(dims.take(k as int) =~= dims);
    }
}

proof fn lemma_tensor(b: Seq<u8>, pos: nat, t: (Seq<char>, TensorView))
    requires
        writable_tensor(t),
        stand_at(b, pos, tensor_entry_bytes(t)),
    ensures
        parse_tensor(b, pos) == Ok::<((Seq<char>, TensorView), nat), GgufError>(
            (t, pos + tensor_entry_bytes(t).len()),
        ),
{
    let name = text_bytes(t.0);
    let count = four_bytes(t.1.dims.len() as int);
    let dims = dims_bytes(t.1.dims, 0);
    let ty = four_bytes(t.1.ggml_type as int);
    let offset = eight_bytes(t.1.offset as int);
    lemma_parts(b, pos, name + count + dims + ty, offset);
    lemma_parts(b, pos, name + count + dims, ty);
    lemma_parts(b, pos, name + count, dims);
    lemma_parts(b, pos, name, count);
    lemma_text(b, pos, t.0);
    lemma_four(b, pos + name.len(), t.1.dims.len() as int);
    assert(t.1.dims.take(0) =~= seq![]);
    lemma_dims(b, pos + (name + count).len(), t.1.dims, 0);
    lemma_four(b, pos + (name + count + dims).len(), t.1.ggml_type as int);
    lemma_eight(b, pos + (name + count + dims + ty).len(), t.1.offset as int);
    assert(parse_tensor(b, pos)->Ok_0.0.1 =~= t.1);
}

proof fn lemma_tensors(
    b: Seq<u8>,
    pos: nat,
    list: Seq<(Seq<char>, TensorView)>,
    k: nat,
    done: Map<Seq<char>, TensorView>,
) -> (m: Map<Seq<char>, TensorView>)
    requires
        k <= list.len(),
        forall|i: int| 0 <= i < list.len() ==> writable_tensor(#[trigger] list[i]),
        holds_last(done, list, k as int),
        stand_at(b, pos, tensors_bytes(list, k)),
    ensures
        holds_last(m, list, list.len() as int),
        parse_tensors(b, pos, (list.len() - k) as nat, done) == Ok::<
            (Map<Seq<char>, TensorView>, nat),
            GgufError,
        >((m, pos + tensors_bytes(list, k).len())),
    decreases list.len() - k,
{
    if k < list.len() {
        let t = list[k as int];
        lemma_parts(b, pos, tensor_entry_bytes(t), tensors_bytes(list, k + 1));
        lemma_tensor(b, pos, t);
        lemma_one_more(done, list, k as int);
        lemma_tensors(b, pos + tensor_entry_bytes(t).len(), list, k + 1, done.insert(t.0, t.1))
    } else {
        done
    }
}

/// The tables of a file: the letters `GGUF`, the version, the number of tensors, the
/// number of metadata entries, the entries and the tensors.
pub open spec fn tables_bytes(
    version: u32,
    entries: Seq<(Seq<char>, Meta)>,
    tensors: Seq<(Seq<char>, TensorView)>,
) -> Seq<u8> {
    encode_utf8(seq!['G', 'G', 'U', 'F']) + four_bytes(version as int) + eight_bytes(
        tensors.len() as int,
    ) + eight_bytes(entries.len() as int) + entries_bytes(entries, 0) + tensors_bytes(tensors, 0)
}

/// The alignment that a map of metadata asks for, which may be kept as a number of any
/// type, and is 32 where nothing else is asked.
pub open spec fn asked_alignment(meta: Map<Seq<char>, Meta>) -> int {
    if !meta.contains_key("general.alignment"@) {
        32
    } else {
        match meta["general.alignment"@] {
            Meta::U8(v) => v as int,
            Meta::U16(v) => v as int,
            Meta::U32(v) => v as int,
            Meta::U64(v) => v as int,
            Meta::I8(v) if v >= 0 => v as int,
            Meta::I16(v) if v >= 0 => v as int,
            Meta::I32(v) if v >= 0 => v as int,
            Meta::I64(v) if v >= 0 => v as int,
            _ => 32,
        }
    }
}

/// A file that was written is read back: every entry and every tensor, and of several
/// with one name the last. The data starts at the first multiple of the alignment that
/// is not inside the tables.
pub proof fn written_files_are_read(
    version: u32,
    entries: Seq<(Seq<char>, Meta)>,
    tensors: Seq<(Seq<char>, TensorView)>,
    rest: Seq<u8>,
)
    requires
        version == 2 || version == 3,
        entries.len() <= u64::MAX,
        tensors.len() <= u64::MAX,
        forall|i: int|
            0 <= i < entries.len() ==> encode_utf8((#[trigger] entries[i]).0).len() <= u64::MAX
                && writable(entries[i].1),
        forall|i: int| 0 <= i < tensors.len() ==> writable_tensor(#[trigger] tensors[i]),
    ensures
        ({
            let tables = tables_bytes(version, entries, tensors);
            let file = tables + rest;
            let read = parse_file(file);
            exists|meta: Map<Seq<char>, Meta>|
                {
                    &&& #[trigger] holds_last(meta, entries, entries.len() as int)
                    &&& asked_alignment(meta) == 0 ==> read == Err::<GgufView, GgufError>(
                        GgufError::ZeroAlignment,
                    )
                    &&& read is Ok ==> {
                        let g = read->Ok_0;
                        &&& g.bytes == file
                        &&& g.meta == meta
                        &&& holds_last(g.tensors, tensors, tensors.len() as int)
                        &&& g.data_start >= tables.len()
                        &&& g.data_start < tables.len() + asked_alignment(meta)
                        &&& g.data_start as int % asked_alignment(meta) == 0
                    }
                    &&& asked_alignment(meta) > 0 && tables.len() + asked_alignment(meta)
                        <= usize::MAX ==> read is Ok
                }
        }),
{
    let tables = tables_bytes(version, entries, tensors);
    let b = tables + rest;
    assert(stand_at(b, 0, tables)) by {
        reveal(stand_at);
        assert(b.subrange(0, tables.len() as int) =~= tables);
    }
    let (meta, map, middle) = lemma_tables(b, version, entries, tensors);
    lemma_alignment(meta);
    lemma_data_position(meta, tables.len());
    assert(holds_last(meta, entries, entries.len() as int));
    let read = parse_file(b);
    assert(read is Ok ==> read->Ok_0.meta == meta);
    assert(read is Ok ==> read->Ok_0.tensors == map);
    assert(read is Ok ==> read->Ok_0.bytes == b);
}

proof fn lemma_alignment(meta: Map<Seq<char>, Meta>)
    ensures
        asked_alignment(meta) == alignment(meta),
{
}

proof fn lemma_data_position(meta: Map<Seq<char>, Meta>, end: nat)
    ensures
        alignment(meta) == 0 ==> data_position(meta, end) == Err::<usize, GgufError>(
            GgufError::ZeroAlignment,
        ),
        data_position(meta, end) is Ok ==> {
            let start = data_position(meta, end)->Ok_0;
            end <= start < end + alignment(meta) && start as int % alignment(meta) as int == 0
        },
        alignment(meta) > 0 && end + alignment(meta) <= usize::MAX ==> data_position(meta, end)
            is Ok,
{
    if alignment(meta) > 0 {
        lemma_round_up(end, alignment(meta) as nat);
    }
}

proof fn lemma_header(
    b: Seq<u8>,
    version: u32,
    n_tensors: u64,
    n_entries: u64,
    entries: Seq<u8>,
    tensors: Seq<u8>,
)
    requires
        version == 2 || version == 3,
        stand_at(
            b,
            0,
            encode_utf8(seq!['G', 'G', 'U', 'F']) + four_bytes(version as int) + eight_bytes(
                n_tensors as int,
            ) + eight_bytes(n_entries as int) + entries + tensors,
        ),
    ensures
        parse_file(b) == crate::gguf::parse_tables(b, n_tensors, n_entries),
        stand_at(b, 24, entries),
        stand_at(b, 24 + entries.len(), tensors),
        (encode_utf8(seq!['G', 'G', 'U', 'F']) + four_bytes(version as int) + eight_bytes(
            n_tensors as int,
        ) + eight_bytes(n_entries as int) + entries + tensors).len() == 24 + entries.len()
            + tensors.len(),
{
    let magic = encode_utf8(seq!['G', 'G', 'U', 'F']);
    lemma_magic();
    let h1 = magic + four_bytes(version as int);
    let h2 = h1 + eight_bytes(n_tensors as int);
    let h3 = h2 + eight_bytes(n_entries as int);
    let h4 = h3 + entries;
    lemma_parts(b, 0, h4, tensors);
    lemma_parts(b, 0, h3, entries);
    lemma_parts(b, 0, h2, eight_bytes(n_entries as int));
    lemma_parts(b, 0, h1, eight_bytes(n_tensors as int));
    lemma_parts(b, 0, magic, four_bytes(version as int));
    assert(b.subrange(0, 4) == magic) by {
        reveal(stand_at);
    }
    lemma_four(b, 4, version as int);
    lemma_eight(b, 8, n_tensors as int);
    lemma_eight(b, 16, n_entries as int);
    assert(h3.len() == 24);
}

proof fn lemma_tables(
    b: Seq<u8>,
    version: u32,
    entries: Seq<(Seq<char>, Meta)>,
    tensors: Seq<(Seq<char>, TensorView)>,
) -> (r: (Map<Seq<char>, Meta>, Map<Seq<char>, TensorView>, nat))
    requires
        version == 2 || version == 3,
        entries.len() <= u64::MAX,
        tensors.len() <= u64::MAX,
        forall|i: int|
            0 <= i < entries.len() ==> encode_utf8((#[trigger] entries[i]).0).len() <= u64::MAX
                && writable(entries[i].1),
        forall|i: int| 0 <= i < tensors.len() ==> writable_tensor(#[trigger] tensors[i]),
        stand_at(b, 0, tables_bytes(version, entries, tensors)),
    ensures
        holds_last(r.0, entries, entries.len() as int),
        holds_last(r.1, tensors, tensors.len() as int),
        parse_file(b) == crate::gguf::parse_tables(b, tensors.len() as u64, entries.len() as u64),
        parse_entries(b, 24, entries.len(), Map::empty()) == Ok::<
            (Map<Seq<char>, Meta>, nat),
            GgufError,
        >((r.0, r.2)),
        parse_tensors(b, r.2, tensors.len(), Map::empty()) == Ok::<
            (Map<Seq<char>, TensorView>, nat),
            GgufError,
        >((r.1, tables_bytes(version, entries, tensors).len())),
{
    let e = entries_bytes(entries, 0);
    let t = tensors_bytes(tensors, 0);
    let (n_tensors, n_entries) = (tensors.len() as u64, entries.len() as u64);
    assert(n_tensors as int == tensors.len() && n_entries as int == entries.len());
    lemma_header(b, version, n_tensors, n_entries, e, t);
    lemma_none(entries);
    lemma_none(tensors);
    let meta = lemma_entries(b, 24, entries, 0, Map::empty());
    let map = lemma_tensors(b, 24 + e.len(), tensors, 0, Map::empty());
    (meta, map, 24 + e.len())
}

proof fn lemma_magic()
    ensures
        encode_utf8(seq!['G', 'G', 'U', 'F']) == seq![71u8, 71u8, 85u8, 70u8],
{
    let s = seq!['G', 'G', 'U', 'F'];
    assert(vstd::utf8::is_ascii_chars(s));
    vstd::utf8::is_ascii_chars_encode_utf8(s);
    assert(encode_utf8(s) =~= seq![71u8, 71u8, 85u8, 70u8]);
}

proof fn lemma_round_up(n: nat, unit: nat)
    requires
        unit > 0,
    ensures
        ({
            let r = crate::gguf::round_up(n, unit);
            n <= r < n + unit && r % unit == 0
        }),
{
    let (a, u) = (n as int, unit as int);
    vstd::arithmetic::div_mod::lemma_fundamental_div_mod(a, u);
    vstd::arithmetic::div_mod::lemma_mod_bound(a, u);
    assert(a % u != 0 ==> a - a % u + u == u * (a / u + 1)) by (nonlinear_arith)
        requires
            a == u * (a / u) + a % u,
    ;
    vstd::arithmetic::div_mod::lemma_mod_multiples_basic(a / u + 1, u);
    assert(u * (a / u + 1) == (a / u + 1) * u) by (nonlinear_arith);
}

/// The data of a tensor is as many bytes as it has, from its offset into the data
/// section on.
pub proof fn tensor_data_is_where_the_table_says(g: GgufView, name: Seq<char>)
    ensures
        g.data_range(name) is Ok ==> {
            let (start, end) = g.data_range(name)->Ok_0;
            &&& g.tensors.contains_key(name)
            &&& start == g.data_start + g.tensors[name].offset
            &&& end - start == g.tensors[name].nbytes
            &&& 0 <= start <= end <= g.bytes.len()
        },
        g.data_range(name) is Err ==> !g.tensors.contains_key(name) || g.data_start
            + g.tensors[name].offset + g.tensors[name].nbytes > g.bytes.len(),
{
}

/// The product of the numbers.
pub open spec fn product(dims: Seq<u64>) -> nat
    decreases dims.len(),
{
    if dims.len() == 0 {
        1
    } else {
        dims[0] as nat * product(dims.skip(1))
    }
}

proof fn lemma_product_push(dims: Seq<u64>, d: u64)
    ensures
        product(dims.push(d)) == product(dims) * d,
    decreases dims.len(),
{
    let all = dims.push(d);
    if dims.len() == 0 {
        assert(all.skip(1) =~= seq![]);
        assert(product(all.skip(1)) == 1);
        assert(all[0] == d);
        assert(product(dims) == 1);
        assert(product(all) == d as nat * product(all.skip(1)));
        let z = d as int;
        assert(z * 1 == 1 * z) by (nonlinear_arith);
    } else {
        assert(all.skip(1) =~= dims.skip(1).push(d));
        lemma_product_push(dims.skip(1), d);
        let (x, y, z) = (dims[0] as int, product(dims.skip(1)) as int, d as int);
        assert(x * (y * z) == (x * y) * z) by (nonlinear_arith);
        assert(all[0] == dims[0]);
        assert(product(dims) == dims[0] as nat * product(dims.skip(1)));
        assert(product(dims) as int == x * y);
        assert(product(all) == dims[0] as nat * product(all.skip(1)));
    }
}

proof fn lemma_product_parts(a: Seq<u64>, b: Seq<u64>)
    ensures
        product(a + b) == product(a) * product(b),
    decreases b.len(),
{
    if b.len() == 0 {
        assert(a + b =~= a);
        assert(product(b) == 1);
        assert(product(a) * 1 == product(a)) by (nonlinear_arith);
    } else {
        let front = b.drop_last();
        let d = b.last();
        lemma_product_parts(a, front);
        assert(a + b =~= (a + front).push(d));
        assert(b =~= front.push(d));
        lemma_product_push(a + front, d);
        lemma_product_push(front, d);
        let (x, y, z) = (product(a) as int, product(front) as int, d as int);
        assert((x * y) * z == x * (y * z)) by (nonlinear_arith);
    }
}

/// A tensor has as many elements as the product of all its dimensions says. Where none
/// of them is zero, that is so exactly where the product fits.
pub proof fn elements_are_the_product(dims: Seq<u64>)
    ensures
        elements(dims) is Some ==> elements(dims)->0 == product(dims),
        (forall|i: int| 0 <= i < dims.len() ==> #[trigger] dims[i] > 0) ==> (elements(dims) is Some
            <==> product(dims) <= u64::MAX) && product(dims) > 0,
    decreases dims.len(),
{
    if dims.len() > 0 {
        let front = dims.drop_last();
        elements_are_the_product(front);
        assert(dims =~= front.push(dims.last()));
        lemma_product_push(front, dims.last());
        if forall|i: int| 0 <= i < dims.len() ==> #[trigger] dims[i] > 0 {
            assert(forall|i: int| 0 <= i < front.len() ==> #[trigger] front[i] == dims[i]);
            assert(dims[dims.len() - 1] > 0);
            let (x, y) = (product(front) as int, dims.last() as int);
            assert(x <= x * y && 0 < x * y) by (nonlinear_arith)
                requires
                    x > 0,
                    y > 0,
            ;
        }
    }
}

/// One more dimension multiplies the elements, and where whole blocks stay whole the
/// bytes too.
pub proof fn one_more_dimension_multiplies(dims: Seq<u64>, d: u64, ggml_type: u32)
    ensures
        elements(dims) is Some && elements(dims)->0 * d <= u64::MAX ==> elements(dims.push(d))
            == Some((elements(dims)->0 * d) as u64),
        tensor_bytes(dims, ggml_type) is Ok && tensor_bytes(dims.push(d), ggml_type) is Ok
            ==> tensor_bytes(dims.push(d), ggml_type)->Ok_0 == tensor_bytes(dims, ggml_type)->Ok_0
            * d,
{
    assert(dims.push(d).drop_last() =~= dims);
    if tensor_bytes(dims, ggml_type) is Ok && tensor_bytes(dims.push(d), ggml_type) is Ok {
        let n = elements(dims)->0 as int;
        let (items, bytes) = layout(ggml_type)->0;
        let (i, y, q, w) = (items as int, bytes as int, n / items as int, d as int);
        vstd::arithmetic::div_mod::lemma_fundamental_div_mod(n, i);
        assert(n * w == i * (q * w)) by (nonlinear_arith)
            requires
                n == i * q,
        ;
        vstd::arithmetic::div_mod::lemma_div_multiples_vanish(q * w, i);
        assert((q * w) * y == (q * y) * w) by (nonlinear_arith);
    }
}

proof fn lemma_product_permutes(a: Seq<u64>, b: Seq<u64>)
    requires
        a.to_multiset() == b.to_multiset(),
    ensures
        product(a) == product(b),
    decreases a.len(),
{
    a.to_multiset_ensures();
    b.to_multiset_ensures();
    if a.len() == 0 {
        assert(b.len() == 0);
    } else {
        let d = a.last();
        assert(a.contains(d));
        assert(a.to_multiset().count(d) > 0);
        assert(b.contains(d));
        let j = choose|j: int| 0 <= j < b.len() && b[j] == d;
        let x = b.take(j);
        let y = b.skip(j + 1);
        assert(b =~= x + seq![d] + y);
        assert(b.remove(j) =~= x + y);
        assert(a.remove(a.len() - 1) =~= a.drop_last());
        lemma_product_permutes(a.drop_last(), x + y);
        assert(a =~= a.drop_last().push(d));
        lemma_product_push(a.drop_last(), d);
        lemma_product_parts(x + seq![d], y);
        lemma_product_parts(x, y);
        assert(x + seq![d] =~= x.push(d));
        lemma_product_push(x, d);
        let (p, q, r) = (product(x) as int, product(y) as int, d as int);
        assert((p * r) * q == (p * q) * r) by (nonlinear_arith);
    }
}

/// The order of the dimensions does not matter to the number of elements.
pub proof fn order_of_dimensions_does_not_matter(a: Seq<u64>, b: Seq<u64>)
    requires
        a.to_multiset() == b.to_multiset(),
    ensures
        elements(a) is Some && elements(b) is Some ==> elements(a) == elements(b),
        (forall|i: int| 0 <= i < a.len() ==> #[trigger] a[i] > 0) ==> elements(a) == elements(b),
{
    lemma_product_permutes(a, b);
    elements_are_the_product(a);
    elements_are_the_product(b);
    if forall|i: int| 0 <= i < a.len() ==> #[trigger] a[i] > 0 {
        a.to_multiset_ensures();
        b.to_multiset_ensures();
        assert forall|i: int| 0 <= i < b.len() implies #[trigger] b[i] > 0 by {
            assert(b.contains(b[i]));
            assert(b.to_multiset().count(b[i]) > 0);
            assert(a.contains(b[i]));
        }
    }
}

/// The types of tensors that can be read, with the elements and bytes of a block.
pub proof fn known_tensor_types(ggml_type: u32)
    ensures
        layout(0) == Some((1u64, 4u64)),
        layout(1) == Some((1u64, 2u64)),
        layout(2) == Some((32u64, 18u64)),
        layout(3) == Some((32u64, 20u64)),
        layout(6) == Some((32u64, 22u64)),
        layout(7) == Some((32u64, 24u64)),
        layout(8) == Some((32u64, 34u64)),
        layout(10) == Some((256u64, 84u64)),
        layout(11) == Some((256u64, 110u64)),
        layout(12) == Some((256u64, 144u64)),
        layout(13) == Some((256u64, 176u64)),
        layout(14) == Some((256u64, 210u64)),
        layout(16) == Some((256u64, 66u64)),
        layout(30) == Some((1u64, 2u64)),
        layout(ggml_type) is Some ==> ggml_type <= 3 || 6 <= ggml_type <= 8 || 10 <= ggml_type <= 14
            || ggml_type == 16 || ggml_type == 30,
{
}

/// A file that starts with other letters, or is of another version, is refused, and so is
/// one that ends inside its header.
pub proof fn other_files_are_refused(b: Seq<u8>, version: u32, rest: Seq<u8>)
    ensures
        b.len() < 4 ==> parse_file(b) == Err::<GgufView, GgufError>(GgufError::Truncated),
        b.len() >= 4 && b.take(4) != encode_utf8(seq!['G', 'G', 'U', 'F']) ==> parse_file(b)
            == Err::<GgufView, GgufError>(GgufError::NotGguf),
        b.len() >= 4 && b.take(4) == encode_utf8(seq!['G', 'G', 'U', 'F']) && b.len() < 8
            ==> parse_file(b) == Err::<GgufView, GgufError>(GgufError::Truncated),
        version != 2 && version != 3 ==> parse_file(
            encode_utf8(seq!['G', 'G', 'U', 'F']) + four_bytes(version as int) + rest,
        ) == Err::<GgufView, GgufError>(GgufError::UnsupportedVersion(version)),
        (version == 2 || version == 3) && rest.len() < 16 ==> parse_file(
            encode_utf8(seq!['G', 'G', 'U', 'F']) + four_bytes(version as int) + rest,
        ) == Err::<GgufView, GgufError>(GgufError::Truncated),
{
    lemma_magic();
    if b.len() >= 4 {
        assert(b.take(4) =~= b.subrange(0, 4));
    }
    let magic = encode_utf8(seq!['G', 'G', 'U', 'F']);
    let number = four_bytes(version as int);
    let c = magic + number + rest;
    assert(number.len() == 4) by {
        reveal(four_bytes);
    }
    assert(c.subrange(0, 4) =~= magic);
    assert(stand_at(c, 4, number)) by {
        reveal(stand_at);
        assert(c.subrange(4, 8) =~= number);
    }
    lemma_four(c, 4, version as int);
}

/// A value of a type that is not known is refused, and so is one of fixed size or a text
/// that is cut short.
pub proof fn values_cut_short_are_refused(b: Seq<u8>, v: Meta, k: int, ty: u32)
    requires
        writable(v),
        !(v is Arr),
        0 <= k < value_bytes(v).len(),
    ensures
        parse_value(b + value_bytes(v).take(k), b.len(), type_of(v)) == Err::<
            (Meta, nat),
            GgufError,
        >(GgufError::Truncated),
        ty > 12 ==> parse_value(b, 0, ty) == Err::<(Meta, nat), GgufError>(
            GgufError::UnknownValueType(ty),
        ),
{
    let bytes = value_bytes(v);
    let c = b + bytes.take(k);
    assert(forall|x: int| #[trigger] two_bytes(x).len() == 2) by {
        reveal(two_bytes);
    }
    assert(forall|x: int| #[trigger] four_bytes(x).len() == 4) by {
        reveal(four_bytes);
    }
    assert(forall|x: int| #[trigger] eight_bytes(x).len() == 8) by {
        reveal(four_bytes);
        reveal(eight_bytes);
    }
    assert(room(c, b.len()) == k);
    if let Meta::Str(s) = v {
        let body = encode_utf8(s);
        if k >= 8 {
            let n = eight_bytes(body.len() as int);
            assert(stand_at(c, b.len(), n)) by {
                reveal(stand_at);
                assert(c.subrange(b.len() as int, b.len() as int + 8) =~= n);
            }
            lemma_eight(c, b.len(), body.len() as int);
        }
    }
}

/// Numbers in a file are equal where the numbers are that they stand for, and what is no
/// number is equal to nothing.
pub proof fn equal_bits_are_equal_numbers(a: u32, b: u32)
    ensures
        crate::gguf::equal_32(a, b) <==> crate::routing::is_number(a) && crate::routing::is_number(
            b,
        ) && crate::routing::float_value(a) == crate::routing::float_value(b),
{
    crate::routing::order_is_that_of_the_numbers(a, b);
    crate::routing::order_is_that_of_the_numbers(b, a);
}

/// The same of numbers of 64 bits: those that stand for a number are equal to themselves,
/// the two zeros are equal, and no others are.
pub proof fn equal_long_bits_are_equal_numbers(a: u64, b: u64)
    ensures
        crate::gguf::equal_64(a, a) <==> a as int % 0x8000_0000_0000_0000 / 0x10_0000_0000_0000
            < 2047 || a as int % 0x10_0000_0000_0000 == 0,
        crate::gguf::equal_64(a, b) ==> crate::gguf::equal_64(a, a) && crate::gguf::equal_64(b, b),
        crate::gguf::equal_64(0, 0x8000_0000_0000_0000),
        crate::gguf::equal_64(a, b) ==> crate::gguf::equal_64(b, a),
        a != b && a > 0 && b > 0 ==> !crate::gguf::equal_64(a, b),
        a != 0 && a != 0x8000_0000_0000_0000 ==> !crate::gguf::equal_64(a, 0),
{
}

/// Values are equal where they are of one type and say the same, arrays element by
/// element.
pub proof fn equal_values_say_the_same(a: Seq<Meta>, b: Seq<Meta>, x: Meta, y: Meta)
    ensures
        x.equals(y) ==> type_of(x) == type_of(y),
        !(x is F32 || x is F64 || x is Arr) ==> (x.equals(y) <==> x == y),
        x is F32 && y is F32 ==> (x.equals(y) <==> crate::gguf::equal_32(x->F32_0, y->F32_0)),
        x is F64 && y is F64 ==> (x.equals(y) <==> crate::gguf::equal_64(x->F64_0, y->F64_0)),
        Meta::Arr(seq![]).equals(Meta::Arr(seq![])),
        a.len() != b.len() ==> !Meta::Arr(a).equals(Meta::Arr(b)),
        Meta::Arr(a.push(x)).equals(Meta::Arr(b.push(y))) <==> Meta::Arr(a).equals(Meta::Arr(b))
            && x.equals(y),
{
    let (p, q) = (a.push(x), b.push(y));
    if Meta::Arr(p).equals(Meta::Arr(q)) {
        assert(p[a.len() as int].equals(q[a.len() as int]));
        assert forall|i: int| 0 <= i < a.len() implies (#[trigger] a[i]).equals(b[i]) by {
            assert(p[i].equals(q[i]));
        }
    }
    if Meta::Arr(a).equals(Meta::Arr(b)) && x.equals(y) {
        assert forall|i: int| 0 <= i < p.len() implies (#[trigger] p[i]).equals(q[i]) by {
            if i < a.len() {
                assert(a[i].equals(b[i]));
            }
        }
    }
}

/// A tensor can be read exactly where its type is known, it is made of whole blocks, and
/// its sizes fit. Otherwise it is refused for the first of these that fails.
pub proof fn tensors_of_whole_blocks_are_read(dims: Seq<u64>, ggml_type: u32)
    ensures
        elements(dims) is None ==> tensor_bytes(dims, ggml_type) == Err::<u64, GgufError>(
            GgufError::TooLarge,
        ),
        elements(dims) is Some && layout(ggml_type) is None ==> tensor_bytes(dims, ggml_type)
            == Err::<u64, GgufError>(GgufError::UnsupportedTensorType(ggml_type)),
        elements(dims) is Some && layout(ggml_type) is Some ==> {
            let n = product(dims);
            let (items, bytes) = layout(ggml_type)->0;
            &&& n % items as nat != 0 ==> tensor_bytes(dims, ggml_type) == Err::<u64, GgufError>(
                GgufError::PartialBlock,
            )
            &&& n % items as nat == 0 && n / items as nat * bytes > u64::MAX ==> tensor_bytes(
                dims,
                ggml_type,
            ) == Err::<u64, GgufError>(GgufError::TooLarge)
            &&& n % items as nat == 0 && n / items as nat * bytes <= u64::MAX ==> tensor_bytes(
                dims,
                ggml_type,
            ) == Ok::<u64, GgufError>((n / items as nat * bytes) as u64)
        },
{
    elements_are_the_product(dims);
}

/// A value says what it holds, and so do the entries of a file and of its tensors.
pub proof fn values_say_what_they_hold(
    v: crate::gguf::Value,
    t: crate::gguf::TensorInfo,
    g: crate::gguf::Gguf,
    key: Seq<char>,
    i: int,
)
    ensures
        match v {
            crate::gguf::Value::U8(x) => v.meta() == Meta::U8(x),
            crate::gguf::Value::I8(x) => v.meta() == Meta::I8(x),
            crate::gguf::Value::U16(x) => v.meta() == Meta::U16(x),
            crate::gguf::Value::I16(x) => v.meta() == Meta::I16(x),
            crate::gguf::Value::U32(x) => v.meta() == Meta::U32(x),
            crate::gguf::Value::I32(x) => v.meta() == Meta::I32(x),
            crate::gguf::Value::F32(x) => v.meta() == Meta::F32(x),
            crate::gguf::Value::Bool(x) => v.meta() == Meta::Bool(x),
            crate::gguf::Value::Str(x) => v.meta() == Meta::Str(x@),
            crate::gguf::Value::Arr(x) => v.meta() is Arr && v.meta()->Arr_0.len() == x@.len() && (
            0 <= i < x@.len() ==> v.meta()->Arr_0[i] == x@[i].meta()),
            crate::gguf::Value::U64(x) => v.meta() == Meta::U64(x),
            crate::gguf::Value::I64(x) => v.meta() == Meta::I64(x),
            crate::gguf::Value::F64(x) => v.meta() == Meta::F64(x),
        },
        t@.dims == t.dims@,
        t@.ggml_type == t.ggml_type,
        t@.offset == t.offset,
        t@.nbytes == t.nbytes,
        g@.bytes == g.bytes@,
        g@.data_start == g.data_start,
        g@.meta.contains_key(key) <==> g.meta@.contains_key(key),
        g.meta@.contains_key(key) ==> g@.meta[key] == g.meta@[key].meta(),
        g@.tensors.contains_key(key) <==> g.tensors@.contains_key(key),
        g.tensors@.contains_key(key) ==> g@.tensors[key] == g.tensors@[key]@,
{
}

/// Every byte but zero is read as true, and an array of no elements is read as empty,
/// whatever the type of its elements.
pub proof fn loose_values_are_read(before: Seq<u8>, byte: u8, ty: u32, after: Seq<u8>)
    ensures
        parse_value(before.push(byte) + after, before.len(), 7) == Ok::<(Meta, nat), GgufError>(
            (Meta::Bool(byte != 0), 1),
        ),
        parse_value(
            before + four_bytes(ty as int) + eight_bytes(0) + after,
            before.len(),
            9,
        ) == Ok::<(Meta, nat), GgufError>((Meta::Arr(seq![]), 12)),
{
    let b = before.push(byte) + after;
    assert(b[before.len() as int] == byte);
    let c = before + four_bytes(ty as int) + eight_bytes(0) + after;
    let head = four_bytes(ty as int) + eight_bytes(0);
    assert(stand_at(c, before.len(), head)) by {
        reveal(stand_at);
        assert(c.subrange(before.len() as int, (before.len() + head.len()) as int) =~= head);
    }
    lemma_parts(c, before.len(), four_bytes(ty as int), eight_bytes(0));
    lemma_four(c, before.len(), ty as int);
    lemma_eight(c, before.len() + 4, 0);
    assert(crate::gguf::fixed_size(9) is None);
    assert(parse_values(c, before.len() + 12, ty, 0, seq![]) == Ok::<(Seq<Meta>, nat), GgufError>(
        (seq![], before.len() + 12),
    ));
}

} // verus!
