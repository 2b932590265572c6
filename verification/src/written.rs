//! Files as they are written: the bytes that stand for numbers, texts, metadata values and
//! tensor descriptors, and that reading gives back what was written.

use crate::gguf::{
    aligned, descriptors, dim_at, element_at, entry_at, file, header, law_type_id_reads_back,
    little_endian, map_of, placed, placement, repeated, scalar, string, tensor_at, value, word,
    FileView, GgufDataType, GgufError, MetadataView, Parsed, TensorView,
};
use crate::utf8::law_utf8_has_no_fault;
use vstd::prelude::*;
use vstd::utf8::encode_utf8;

verus! {

/// A number in `n` bytes, low byte first.
pub open spec fn le(x: nat, n: nat) -> Seq<u8>
    decreases n,
{
    if n == 0 {
        Seq::empty()
    } else {
        seq![(x % 256) as u8] + le(x / 256, (n - 1) as nat)
    }
}

/// How many numbers `n` bytes can hold.
pub open spec fn reach(n: nat) -> nat
    decreases n,
{
    if n == 0 {
        1
    } else {
        256 * reach((n - 1) as nat)
    }
}

/// A text: the length of its UTF-8 form in eight bytes, and the form itself.
pub open spec fn text_bytes(t: Seq<char>) -> Seq<u8> {
    le(encode_utf8(t).len(), 8) + encode_utf8(t)
}

/// The number that stands for a negative one in `n` bytes is counted back from the end.
pub open spec fn wrapped_number(x: int, n: nat) -> nat {
    (if x < 0 {
        x + reach(n)
    } else {
        x
    }) as nat
}

/// The number of a value's type.
pub open spec fn type_number(v: MetadataView) -> nat {
    match v {
        MetadataView::UInt8(_) => 0,
        MetadataView::Int8(_) => 1,
        MetadataView::UInt16(_) => 2,
        MetadataView::Int16(_) => 3,
        MetadataView::UInt32(_) => 4,
        MetadataView::Int32(_) => 5,
        MetadataView::Float32(_) => 6,
        MetadataView::Bool(_) => 7,
        MetadataView::String(_) => 8,
        MetadataView::Array(_) => 9,
        MetadataView::UInt64(_) => 10,
        MetadataView::Int64(_) => 11,
        MetadataView::Float64(_) => 12,
    }
}

/// A value that is no array.
pub open spec fn plain_bytes(v: MetadataView) -> Seq<u8> {
    match v {
        MetadataView::UInt8(x) => le(x as nat, 1),
        MetadataView::Int8(x) => le(wrapped_number(x as int, 1), 1),
        MetadataView::UInt16(x) => le(x as nat, 2),
        MetadataView::Int16(x) => le(wrapped_number(x as int, 2), 2),
        MetadataView::UInt32(x) => le(x as nat, 4),
        MetadataView::Int32(x) => le(wrapped_number(x as int, 4), 4),
        MetadataView::Float32(x) => le(x as nat, 4),
        MetadataView::Bool(x) => le(
            if x {
                1
            } else {
                0
            },
            1,
        ),
        MetadataView::String(t) => text_bytes(t),
        MetadataView::UInt64(x) => le(x as nat, 8),
        MetadataView::Int64(x) => le(wrapped_number(x as int, 8), 8),
        MetadataView::Float64(x) => le(x as nat, 8),
        MetadataView::Array(_) => Seq::empty(),
    }
}

/// Parts one after the other.
pub open spec fn all_of(parts: Seq<Seq<u8>>) -> Seq<u8>
    decreases parts.len(),
{
    if parts.len() == 0 {
        Seq::empty()
    } else {
        all_of(parts.drop_last()) + parts.last()
    }
}

/// A value behind its type. The elements of an array are of one type, which stands in front
/// of their number.
pub open spec fn value_bytes(v: MetadataView, element: nat) -> Seq<u8> {
    match v {
        MetadataView::Array(items) => le(9, 4) + le(element, 4) + le(items.len(), 8) + all_of(
            items.map_values(|x: MetadataView| plain_bytes(x)),
        ),
        _ => le(type_number(v), 4) + plain_bytes(v),
    }
}

/// A value that can be written: arrays do not nest, and their elements are of one type.
pub open spec fn can_be_written(v: MetadataView, element: nat) -> bool {
    v matches MetadataView::Array(items) ==> {
        &&& element <= 12 && element != 9
        &&& forall|i: int| 0 <= i < items.len() ==> type_number(#[trigger] items[i]) == element
    }
}

/// A metadata entry: its key and its value.
pub open spec fn entry_bytes(e: (Seq<char>, MetadataView), element: nat) -> Seq<u8> {
    text_bytes(e.0) + value_bytes(e.1, element)
}

/// The number of a tensor's type.
pub open spec fn tensor_type_number(t: GgufDataType) -> nat {
    match t {
        GgufDataType::F32 => 0,
        GgufDataType::F16 => 1,
        GgufDataType::Q4_0 => 2,
        GgufDataType::Q4_1 => 3,
        GgufDataType::Q5_0 => 6,
        GgufDataType::Q5_1 => 7,
        GgufDataType::Q8_0 => 8,
        GgufDataType::Q8_1 => 9,
        GgufDataType::Q2_K => 10,
        GgufDataType::Q3_K => 11,
        GgufDataType::Q4_K => 12,
        GgufDataType::Q5_K => 13,
        GgufDataType::Q6_K => 14,
    }
}

/// A tensor descriptor: name, number of dimensions, dimensions, type and offset.
pub open spec fn tensor_bytes(t: TensorView) -> Seq<u8> {
    text_bytes(t.name) + le(t.dims.len(), 4) + all_of(t.dims.map_values(|d: usize| le(d as nat, 8)))
        + le(tensor_type_number(t.data_type), 4) + le(t.offset as nat, 8)
}

/// The front of a file: the word GGUF, the version, the numbers of tensors and of entries,
/// then the entries and the tensors.
pub open spec fn file_front(
    entries: Seq<(Seq<char>, MetadataView)>,
    elements: Seq<nat>,
    tensors: Seq<TensorView>,
) -> Seq<u8> {
    seq![0x47u8, 0x47u8, 0x55u8, 0x46u8] + le(3, 4) + le(tensors.len(), 8) + le(entries.len(), 8)
        + all_of(Seq::new(entries.len(), |i: int| entry_bytes(entries[i], elements[i]))) + all_of(
        tensors.map_values(|t: TensorView| tensor_bytes(t)),
    )
}

/// The bytes `b` stand in `s` from `p` on.
pub open spec fn holds(s: Seq<u8>, p: nat, b: Seq<u8>) -> bool {
    p + b.len() <= s.len() && s.subrange(p as int, (p + b.len()) as int) == b
}

proof fn lemma_holds_both(s: Seq<u8>, p: nat, a: Seq<u8>, b: Seq<u8>)
    requires
        holds(s, p, a + b),
    ensures
        holds(s, p, a),
        holds(s, p + a.len(), b),
{
    let w = s.subrange(p as int, (p + a.len() + b.len()) as int);
    assert(w =~= a + b);
    assert(s.subrange(p as int, (p + a.len()) as int) =~= a) by {
        assert forall|i: int| 0 <= i < a.len() implies s[p + i] == a[i] by {
            assert(w[i] == (a + b)[i]);
        }
    }
    assert(s.subrange((p + a.len()) as int, (p + a.len() + b.len()) as int) =~= b) by {
        assert forall|i: int| 0 <= i < b.len() implies s[p + a.len() + i] == b[i] by {
            assert(w[a.len() + i] == (a + b)[a.len() + i]);
        }
    }
}

proof fn lemma_le(s: Seq<u8>, p: nat, x: nat, n: nat)
    requires
        holds(s, p, le(x, n)),
        x < reach(n),
    ensures
        le(x, n).len() == n,
        little_endian(s, p, n) == x,
    decreases n,
{
    lemma_le_len(x, n);
    if n > 0 {
        let head = seq![(x % 256) as u8];
        lemma_holds_both(s, p, head, le(x / 256, (n - 1) as nat));
        assert(s.subrange(p as int, (p + 1) as int)[0] == head[0]);
        lemma_le(s, p + 1, x / 256, (n - 1) as nat);
    }
}

proof fn lemma_le_len(x: nat, n: nat)
    ensures
        le(x, n).len() == n,
    decreases n,
{
    if n > 0 {
        lemma_le_len(x / 256, (n - 1) as nat);
    }
}

proof fn lemma_reach()
    ensures
        reach(1) == 0x100,
        reach(2) == 0x1_0000,
        reach(4) == 0x1_0000_0000,
        reach(8) == 0x1_0000_0000_0000_0000,
{
    reveal_with_fuel(reach, 9);
}

/// A number that is written low byte first is read back.
pub proof fn law_numbers_read_back(s: Seq<u8>, p: nat, x: nat, n: nat)
    requires
        holds(s, p, le(x, n)),
        x < reach(n),
    ensures
        word(s, p, n) == Ok::<(nat, nat), GgufError>((x, p + n)),
{
    lemma_le(s, p, x, n);
}

/// A text that is written is read back.
pub proof fn law_texts_read_back(s: Seq<u8>, p: nat, t: Seq<char>)
    requires
        s.len() <= usize::MAX,
        holds(s, p, text_bytes(t)),
    ensures
        string(s, p) == Ok::<(Seq<char>, nat), GgufError>((t, p + text_bytes(t).len())),
{
    let b = encode_utf8(t);
    lemma_reach();
    lemma_le_len(b.len(), 8);
    lemma_holds_both(s, p, le(b.len(), 8), b);
    law_numbers_read_back(s, p, b.len(), 8);
    vstd::utf8::encode_utf8_valid_utf8(t);
    vstd::utf8::encode_utf8_decode_utf8(t);
    law_utf8_has_no_fault(b, 0);
    assert((b.len() as u64 as usize) as nat == b.len());
}

proof fn lemma_signs()
    ensures
        forall|x: i8| (#[trigger] wrapped_number(x as int, 1)) as u8 as i8 == x,
        forall|x: i16| (#[trigger] wrapped_number(x as int, 2)) as u16 as i16 == x,
        forall|x: i32| (#[trigger] wrapped_number(x as int, 4)) as u32 as i32 == x,
        forall|x: i64| (#[trigger] wrapped_number(x as int, 8)) as u64 as i64 == x,
{
    lemma_reach();
    assert forall|x: i8| (#[trigger] wrapped_number(x as int, 1)) as u8 as i8 == x by {
        let y = wrapped_number(x as int, 1) as u8;
        assert(y < 0x80 ==> y as i8 == y) by (bit_vector);
        assert(y >= 0x80 ==> y as i8 == y - 0x100) by (bit_vector);
    }
    assert forall|x: i16| (#[trigger] wrapped_number(x as int, 2)) as u16 as i16 == x by {
        let y = wrapped_number(x as int, 2) as u16;
        assert(y < 0x8000 ==> y as i16 == y) by (bit_vector);
        assert(y >= 0x8000 ==> y as i16 == y - 0x1_0000) by (bit_vector);
    }
    assert forall|x: i32| (#[trigger] wrapped_number(x as int, 4)) as u32 as i32 == x by {
        let y = wrapped_number(x as int, 4) as u32;
        assert(y < 0x8000_0000 ==> y as i32 == y) by (bit_vector);
        assert(y >= 0x8000_0000 ==> y as i32 == y - 0x1_0000_0000) by (bit_vector);
    }
    assert forall|x: i64| (#[trigger] wrapped_number(x as int, 8)) as u64 as i64 == x by {
        let y = wrapped_number(x as int, 8) as u64;
        assert(y < 0x8000_0000_0000_0000 ==> y as i64 == y) by (bit_vector);
        assert(y >= 0x8000_0000_0000_0000 ==> y as i64 == y - 0x1_0000_0000_0000_0000)
            by (bit_vector);
    }
}

proof fn lemma_plain(s: Seq<u8>, p: nat, v: MetadataView, unknown: GgufError)
    requires
        s.len() <= usize::MAX,
        !(v is Array),
        holds(s, p, plain_bytes(v)),
    ensures
        scalar(s, p, type_number(v) as u32, unknown) == Ok::<(MetadataView, nat), GgufError>(
            (v, p + plain_bytes(v).len()),
        ),
{
    lemma_reach();
    lemma_signs();
    match v {
        MetadataView::UInt8(x) => {
            law_numbers_read_back(s, p, x as nat, 1);
            lemma_le_len(x as nat, 1);
        },
        MetadataView::Int8(x) => {
            law_numbers_read_back(s, p, wrapped_number(x as int, 1), 1);
            lemma_le_len(wrapped_number(x as int, 1), 1);
        },
        MetadataView::UInt16(x) => {
            law_numbers_read_back(s, p, x as nat, 2);
            lemma_le_len(x as nat, 2);
        },
        MetadataView::Int16(x) => {
            law_numbers_read_back(s, p, wrapped_number(x as int, 2), 2);
            lemma_le_len(wrapped_number(x as int, 2), 2);
        },
        MetadataView::UInt32(x) => {
            law_numbers_read_back(s, p, x as nat, 4);
            lemma_le_len(x as nat, 4);
        },
        MetadataView::Int32(x) => {
            law_numbers_read_back(s, p, wrapped_number(x as int, 4), 4);
            lemma_le_len(wrapped_number(x as int, 4), 4);
        },
        MetadataView::Float32(x) => {
            law_numbers_read_back(s, p, x as nat, 4);
            lemma_le_len(x as nat, 4);
        },
        MetadataView::Bool(x) => {
            let n: nat = if x {
                1
            } else {
                0
            };
            law_numbers_read_back(s, p, n, 1);
            lemma_le_len(n, 1);
        },
        MetadataView::String(t) => {
            law_texts_read_back(s, p, t);
        },
        MetadataView::UInt64(x) => {
            law_numbers_read_back(s, p, x as nat, 8);
            lemma_le_len(x as nat, 8);
        },
        MetadataView::Int64(x) => {
            law_numbers_read_back(s, p, wrapped_number(x as int, 8), 8);
            lemma_le_len(wrapped_number(x as int, 8), 8);
        },
        MetadataView::Float64(x) => {
            law_numbers_read_back(s, p, x as nat, 8);
            lemma_le_len(x as nat, 8);
        },
        MetadataView::Array(_) => {},
    }
}

/// What `f` reads where `b` stands is `x`.
pub open spec fn reads<T>(s: Seq<u8>, f: spec_fn(nat) -> Parsed<T>, b: Seq<u8>, x: T) -> bool {
    forall|q: nat| #[trigger]
        holds(s, q, b) ==> f(q) == Ok::<(T, nat), GgufError>((x, q + b.len()))
}

proof fn lemma_all_read<T>(
    s: Seq<u8>,
    f: spec_fn(nat) -> Parsed<T>,
    parts: Seq<Seq<u8>>,
    items: Seq<T>,
    p: nat,
)
    requires
        parts.len() == items.len(),
        forall|i: int| 0 <= i < items.len() ==> reads(s, f, #[trigger] parts[i], items[i]),
        holds(s, p, all_of(parts)),
    ensures
        repeated(f, p, items.len()) == Ok::<(Seq<T>, nat), GgufError>(
            (items, p + all_of(parts).len()),
        ),
    decreases items.len(),
{
    if items.len() > 0 {
        let (a, b) = (parts.drop_last(), parts.last());
        let rest = items.drop_last();
        lemma_holds_both(s, p, all_of(a), b);
        assert forall|i: int| 0 <= i < rest.len() implies reads(s, f, #[trigger] a[i], rest[i]) by {
            assert(a[i] == parts[i] && rest[i] == items[i]);
        }
        lemma_all_read(s, f, a, rest, p);
        assert(reads(s, f, parts[items.len() - 1], items[items.len() - 1]));
        assert(rest.push(items.last()) =~= items);
    } else {
        assert(items =~= Seq::empty());
    }
}

proof fn lemma_value(s: Seq<u8>, p: nat, v: MetadataView, element: nat)
    requires
        s.len() <= usize::MAX,
        can_be_written(v, element),
        v matches MetadataView::Array(items) ==> items.len() <= usize::MAX,
        holds(s, p, value_bytes(v, element)),
    ensures
        value(s, p) == Ok::<(MetadataView, nat), GgufError>(
            (v, p + value_bytes(v, element).len()),
        ),
{
    lemma_reach();
    match v {
        MetadataView::Array(items) => {
            let g = |x: MetadataView| plain_bytes(x);
            let parts = items.map_values(g);
            let body = all_of(parts);
            lemma_le_len(9, 4);
            lemma_le_len(element, 4);
            lemma_le_len(items.len(), 8);
            lemma_holds_both(s, p, le(9, 4) + le(element, 4) + le(items.len(), 8), body);
            lemma_holds_both(s, p, le(9, 4) + le(element, 4), le(items.len(), 8));
            lemma_holds_both(s, p, le(9, 4), le(element, 4));
            law_numbers_read_back(s, p, 9, 4);
            law_numbers_read_back(s, p + 4, element, 4);
            law_numbers_read_back(s, p + 8, items.len(), 8);
            let f = element_at(s, element as u32);
            assert forall|i: int| 0 <= i < items.len() implies reads(
                s,
                f,
                #[trigger] parts[i],
                items[i],
            ) by {
                assert(type_number(items[i]) == element);
                assert forall|q: nat| #[trigger] holds(s, q, parts[i]) implies f(q) == Ok::<
                    (MetadataView, nat),
                    GgufError,
                >((items[i], q + parts[i].len())) by {
                    lemma_plain(s, q, items[i], GgufError::UnknownArrayType(element as u32));
                }
            }
            lemma_all_read(s, f, parts, items, p + 16);
            assert((items.len() as u64 as usize) as nat == items.len());
        },
        _ => {
            let t = type_number(v);
            lemma_le_len(t, 4);
            lemma_holds_both(s, p, le(t, 4), plain_bytes(v));
            law_numbers_read_back(s, p, t, 4);
            lemma_plain(s, p + 4, v, GgufError::UnknownValueType(t as u32));
        },
    }
}

/// A metadata value of any type, an array included, is read back.
pub proof fn law_values_read_back(s: Seq<u8>, p: nat, v: MetadataView, element: nat)
    requires
        s.len() <= usize::MAX,
        can_be_written(v, element),
        v matches MetadataView::Array(items) ==> items.len() <= usize::MAX,
        holds(s, p, value_bytes(v, element)),
    ensures
        value(s, p) == Ok::<(MetadataView, nat), GgufError>(
            (v, p + value_bytes(v, element).len()),
        ),
{
    lemma_value(s, p, v, element);
}

proof fn lemma_entry(s: Seq<u8>, e: (Seq<char>, MetadataView), element: nat)
    requires
        s.len() <= usize::MAX,
        can_be_written(e.1, element),
        e.1 matches MetadataView::Array(items) ==> items.len() <= usize::MAX,
    ensures
        reads(s, entry_at(s), entry_bytes(e, element), e),
{
    let b = entry_bytes(e, element);
    assert forall|q: nat| #[trigger] holds(s, q, b) implies entry_at(s)(q) == Ok::<
        ((Seq<char>, MetadataView), nat),
        GgufError,
    >((e, q + b.len())) by {
        lemma_holds_both(s, q, text_bytes(e.0), value_bytes(e.1, element));
        law_texts_read_back(s, q, e.0);
        lemma_value(s, q + text_bytes(e.0).len(), e.1, element);
    }
}

proof fn lemma_tensor(s: Seq<u8>, t: TensorView)
    requires
        s.len() <= usize::MAX,
        t.n_dims == t.dims.len(),
        t.dims.len() <= u32::MAX,
    ensures
        reads(s, tensor_at(s), tensor_bytes(t), t),
{
    let b = tensor_bytes(t);
    let g = |d: usize| le(d as nat, 8);
    let parts = t.dims.map_values(g);
    let name = text_bytes(t.name);
    let count = le(t.dims.len(), 4);
    let dims = all_of(parts);
    let kind = le(tensor_type_number(t.data_type), 4);
    let offset = le(t.offset as nat, 8);
    lemma_reach();
    lemma_le_len(t.dims.len(), 4);
    lemma_le_len(tensor_type_number(t.data_type), 4);
    lemma_le_len(t.offset as nat, 8);
    assert forall|q: nat| #[trigger] holds(s, q, b) implies tensor_at(s)(q) == Ok::<
        (TensorView, nat),
        GgufError,
    >((t, q + b.len())) by {
        lemma_holds_both(s, q, name + count + dims + kind, offset);
        lemma_holds_both(s, q, name + count + dims, kind);
        lemma_holds_both(s, q, name + count, dims);
        lemma_holds_both(s, q, name, count);
        law_texts_read_back(s, q, t.name);
        let q1 = q + name.len();
        law_numbers_read_back(s, q1, t.dims.len(), 4);
        let q2 = q1 + 4;
        assert forall|i: int| 0 <= i < t.dims.len() implies reads(
            s,
            dim_at(s),
            #[trigger] parts[i],
            t.dims[i],
        ) by {
            lemma_le_len(t.dims[i] as nat, 8);
            assert forall|r: nat| #[trigger] holds(s, r, parts[i]) implies dim_at(s)(r) == Ok::<
                (usize, nat),
                GgufError,
            >((t.dims[i], r + parts[i].len())) by {
                law_numbers_read_back(s, r, t.dims[i] as nat, 8);
            }
        }
        lemma_all_read(s, dim_at(s), parts, t.dims, q2);
        let q3 = q2 + dims.len();
        law_numbers_read_back(s, q3, tensor_type_number(t.data_type), 4);
        law_numbers_read_back(s, q3 + 4, t.offset as nat, 8);
        law_type_id_reads_back(t.data_type);
        assert(t.data_type.id() == tensor_type_number(t.data_type));
        assert(placement(s, q3) == Ok::<((GgufDataType, u64), nat), GgufError>(
            ((t.data_type, t.offset), q3 + 12),
        ));
        assert(b.len() == name.len() + 4 + dims.len() + 12);
    }
}

/// What stands in front of the entries.
pub open spec fn head_bytes(n_tensors: nat, n_entries: nat) -> Seq<u8> {
    seq![0x47u8, 0x47u8, 0x55u8, 0x46u8] + le(3, 4) + le(n_tensors, 8) + le(n_entries, 8)
}

proof fn lemma_head(s: Seq<u8>, n_tensors: nat, n_entries: nat)
    requires
        holds(s, 0, head_bytes(n_tensors, n_entries)),
        n_tensors <= u64::MAX,
        n_entries <= u64::MAX,
    ensures
        head_bytes(n_tensors, n_entries).len() == 24,
        header(s) == Ok::<((u64, u64), nat), GgufError>(
            ((n_tensors as u64, n_entries as u64), 24),
        ),
{
    let magic = seq![0x47u8, 0x47u8, 0x55u8, 0x46u8];
    let (v, nt, ne) = (le(3, 4), le(n_tensors, 8), le(n_entries, 8));
    lemma_reach();
    lemma_le_len(3, 4);
    lemma_le_len(n_tensors, 8);
    lemma_le_len(n_entries, 8);
    lemma_holds_both(s, 0, magic + v + nt, ne);
    lemma_holds_both(s, 0, magic + v, nt);
    lemma_holds_both(s, 0, magic, v);
    lemma_magic(s);
    law_numbers_read_back(s, 4, 3, 4);
    law_numbers_read_back(s, 8, n_tensors, 8);
    law_numbers_read_back(s, 16, n_entries, 8);
}

proof fn lemma_descriptors(
    s: Seq<u8>,
    entries: Seq<(Seq<char>, MetadataView)>,
    elements: Seq<nat>,
    tensors: Seq<TensorView>,
)
    requires
        s.len() <= usize::MAX,
        holds(s, 0, file_front(entries, elements, tensors)),
        entries.len() <= usize::MAX,
        tensors.len() <= usize::MAX,
        elements.len() == entries.len(),
        forall|i: int|
            0 <= i < entries.len() ==> can_be_written((#[trigger] entries[i]).1, elements[i]),
        forall|i: int|
            0 <= i < entries.len() ==> ((#[trigger] entries[i]).1 matches MetadataView::Array(a)
                ==> a.len() <= usize::MAX),
        forall|i: int|
            0 <= i < tensors.len() ==> (#[trigger] tensors[i]).n_dims == tensors[i].dims.len()
                && tensors[i].dims.len() <= u32::MAX,
    ensures
        descriptors(s) == Ok::<
            (((u64, u64), Seq<(Seq<char>, MetadataView)>, Seq<TensorView>), nat),
            GgufError,
        >(
            (
                ((tensors.len() as u64, entries.len() as u64), entries, tensors),
                file_front(entries, elements, tensors).len(),
            ),
        ),
{
    let eparts = Seq::new(entries.len(), |i: int| entry_bytes(entries[i], elements[i]));
    let tparts = tensors.map_values(|t: TensorView| tensor_bytes(t));
    let head = head_bytes(tensors.len(), entries.len());
    lemma_holds_both(s, 0, head + all_of(eparts), all_of(tparts));
    lemma_holds_both(s, 0, head, all_of(eparts));
    lemma_head(s, tensors.len(), entries.len());
    assert forall|i: int| 0 <= i < entries.len() implies reads(
        s,
        entry_at(s),
        #[trigger] eparts[i],
        entries[i],
    ) by {
        lemma_entry(s, entries[i], elements[i]);
    }
    lemma_all_read(s, entry_at(s), eparts, entries, 24);
    assert forall|i: int| 0 <= i < tensors.len() implies reads(
        s,
        tensor_at(s),
        #[trigger] tparts[i],
        tensors[i],
    ) by {
        lemma_tensor(s, tensors[i]);
    }
    lemma_all_read(s, tensor_at(s), tparts, tensors, 24 + all_of(eparts).len());
}

/// Reading a file gives back what was written: whatever the entries, the tensors and what
/// stands behind them, the metadata is that of the entries, of which the last of a key
/// counts, and the tensors are those written, their offsets counted from the next multiple
/// of 32 behind the front.
pub proof fn law_files_read_back(
    entries: Seq<(Seq<char>, MetadataView)>,
    elements: Seq<nat>,
    tensors: Seq<TensorView>,
    rest: Seq<u8>,
)
    requires
        (file_front(entries, elements, tensors) + rest).len() + 32 <= usize::MAX,
        entries.len() <= usize::MAX,
        tensors.len() <= usize::MAX,
        elements.len() == entries.len(),
        forall|i: int|
            0 <= i < entries.len() ==> can_be_written((#[trigger] entries[i]).1, elements[i]),
        forall|i: int|
            0 <= i < entries.len() ==> ((#[trigger] entries[i]).1 matches MetadataView::Array(a)
                ==> a.len() <= usize::MAX),
        forall|i: int|
            0 <= i < tensors.len() ==> (#[trigger] tensors[i]).n_dims == tensors[i].dims.len()
                && tensors[i].dims.len() <= u32::MAX,
        forall|i: int|
            0 <= i < tensors.len() ==> file_front(entries, elements, tensors).len() + 32 + (
            #[trigger] tensors[i]).offset <= u64::MAX,
    ensures
        ({
            let r = file(file_front(entries, elements, tensors) + rest);
            let n = file_front(entries, elements, tensors).len();
            &&& r matches Ok(f) && {
                &&& f.version == 3
                &&& f.n_tensors == tensors.len()
                &&& n <= f.data_offset < n + 32
                &&& f.data_offset % 32 == 0
                &&& f.metadata == map_of(entries)
                &&& f.tensors.len() == tensors.len()
                &&& forall|i: int|
                    0 <= i < tensors.len() ==> #[trigger] f.tensors[i] == (TensorView {
                        offset: (f.data_offset + tensors[i].offset) as u64,
                        ..tensors[i]
                    })
            }
        }),
{
    let front = file_front(entries, elements, tensors);
    let s = front + rest;
    assert(s.subrange(0, front.len() as int) =~= front);
    lemma_descriptors(s, entries, elements, tensors);
    let base = aligned(front.len(), 32);
    assert(front.len() <= base < front.len() + 32 && base % 32 == 0);
    assert forall|i: int| 0 <= i < tensors.len() implies base + (#[trigger] tensors[i]).offset
        <= u64::MAX by {}
    assert(base as u64 == base);
    assert(placed(tensors, base as u64) is Ok);
}

proof fn lemma_magic(s: Seq<u8>)
    requires
        holds(s, 0, seq![0x47u8, 0x47u8, 0x55u8, 0x46u8]),
    ensures
        word(s, 0, 4) == Ok::<(nat, nat), GgufError>((0x46554747, 4)),
{
    let m = seq![0x47u8, 0x47u8, 0x55u8, 0x46u8];
    let w = s.subrange(0, 4);
    assert(w[0] == m[0] && w[1] == m[1] && w[2] == m[2] && w[3] == m[3]);
    assert(s[0] == 0x47 && s[1] == 0x47 && s[2] == 0x55 && s[3] == 0x46);
    reveal_with_fuel(little_endian, 5);
}

/// Bytes that do not start with the word GGUF are no file, nor are those of another version
/// than the third, nor those that end in front of the numbers of tensors and entries.
pub proof fn law_other_bytes_are_refused(s: Seq<u8>, version: nat)
    ensures
        s.len() >= 4 && s.take(4) != seq![0x47u8, 0x47u8, 0x55u8, 0x46u8] ==> file(s) is Err
            && file(s)->Err_0 is InvalidMagic,
        holds(s, 0, seq![0x47u8, 0x47u8, 0x55u8, 0x46u8] + le(version, 4)) && version
            < 0x1_0000_0000 && version != 3 ==> file(s) == Err::<FileView, GgufError>(
            GgufError::UnsupportedVersion(version as u32),
        ),
        s.len() < 24 ==> file(s) is Err,
        s.len() < 4 ==> file(s) == Err::<FileView, GgufError>(GgufError::UnexpectedEof),
{
    let m = seq![0x47u8, 0x47u8, 0x55u8, 0x46u8];
    reveal_with_fuel(little_endian, 5);
    if s.len() >= 4 && s.take(4) != m {
        let w = s.take(4);
        let (a, b, c, d) = (s[0] as int, s[1] as int, s[2] as int, s[3] as int);
        let x = little_endian(s, 0, 4) as int;
        assert(x == a + 256 * (b + 256 * (c + 256 * d)));
        if x == 0x46554747 {
            assert(a == 0x47 && b == 0x47 && c == 0x55 && d == 0x46);
            assert(w[0] == 0x47 && w[1] == 0x47 && w[2] == 0x55 && w[3] == 0x46);
            assert(w =~= m);
        }
    }
    if holds(s, 0, m + le(version, 4)) && version < 0x1_0000_0000 && version != 3 {
        lemma_reach();
        lemma_holds_both(s, 0, m, le(version, 4));
        lemma_magic(s);
        law_numbers_read_back(s, 4, version, 4);
    }
}

} // verus!
