use vstd::prelude::*;
use vstd::string::*;
use vstd::utf8::*;

use crate::error::DbError;
use crate::record::{
    be_signed, be_unsigned, column_bytes, column_start, column_value, decode_record, field_for,
    header_fields, lemma_all_readable, lemma_be_unsigned_range, lemma_pow256_values, pow256,
    record_header, record_values, serial_kind, serial_width, value_of, values_view, RecordField,
    RecordView, Value, ValueView,
};
use crate::utils::{
    lemma_varint_decode_bounds, lemma_varint_round_trip_before, varint_encode, varint_len,
    write_varint,
};

verus! {

/// The `width` bytes that spell `v` in base 256, most significant first.
pub open spec fn unsigned_bytes(v: nat, width: nat) -> Seq<u8>
    decreases width,
{
    if width == 0 {
        Seq::empty()
    } else {
        unsigned_bytes(v / 256, (width - 1) as nat).push((v % 256) as u8)
    }
}

/// The `width` bytes that spell `n` in two's complement, most significant
/// first.
pub open spec fn signed_bytes(n: int, width: nat) -> Seq<u8> {
    if n < 0 {
        unsigned_bytes((n + pow256(width)) as nat, width)
    } else {
        unsigned_bytes(n as nat, width)
    }
}

/// Whether `n` is in the range of two's-complement numbers of `width`
/// bytes.
pub open spec fn fits(n: int, width: nat) -> bool {
    width >= 1 && -(128 * pow256((width - 1) as nat)) <= n < 128 * pow256((width - 1) as nat)
}

/// The bytes of a number spell that number.
pub proof fn lemma_unsigned_bytes(v: nat, width: nat)
    requires
        v < pow256(width),
    ensures
        unsigned_bytes(v, width).len() == width,
        be_unsigned(unsigned_bytes(v, width)) == v,
    decreases width,
{
    if width > 0 {
        lemma_unsigned_bytes(v / 256, (width - 1) as nat);
        let front = unsigned_bytes(v / 256, (width - 1) as nat);
        let all = unsigned_bytes(v, width);
        assert(all.drop_last() =~= front);
        assert(all.last() == (v % 256) as u8);
    }
}

/// The bytes of a signed number spell that number.
pub proof fn lemma_signed_bytes(n: int, width: nat)
    requires
        fits(n, width),
        width <= 8,
    ensures
        signed_bytes(n, width).len() == width,
        be_signed(signed_bytes(n, width)) == n,
{
    let p = pow256((width - 1) as nat);
    assert(pow256(width) == 256 * p);
    let m: nat = if n < 0 {
        (n + pow256(width)) as nat
    } else {
        n as nat
    };
    lemma_unsigned_bytes(m, width);
    let bytes = signed_bytes(n, width);
    lemma_be_unsigned_range(bytes);
    let b = bytes[0] as nat;
    if n < 0 {
        assert(m >= 128 * p);
        if b < 128 {
            assert((b + 1) * p <= 128 * p) by (nonlinear_arith)
                requires
                    b + 1 <= 128,
            ;
        }
    } else {
        assert(m < 128 * p);
        if b >= 128 {
            assert(b * p >= 128 * p) by (nonlinear_arith)
                requires
                    b >= 128,
            ;
        }
    }
}

/// The number of bytes in which an integer is stored: the least of 1, 2,
/// 3, 4, 6 and 8 that it fits in.
pub open spec fn int_width(n: int) -> nat {
    if fits(n, 1) {
        1
    } else if fits(n, 2) {
        2
    } else if fits(n, 3) {
        3
    } else if fits(n, 4) {
        4
    } else if fits(n, 6) {
        6
    } else {
        8
    }
}

/// The serial type under which a value is stored. The integers 0 and 1
/// have serial types of their own; a text is stored in UTF-8.
pub open spec fn serial_code(value: ValueView) -> nat {
    match value {
        ValueView::Null => 0,
        ValueView::I64(n) => if n == 0 {
            8
        } else if n == 1 {
            9
        } else if int_width(n) <= 4 {
            int_width(n)
        } else if int_width(n) == 6 {
            5
        } else {
            6
        },
        ValueView::Float(_) => 7,
        ValueView::String(s) => 13 + 2 * encode_utf8(s).len(),
        ValueView::Blob(bytes) => 12 + 2 * bytes.len(),
    }
}

/// The bytes that a value takes in the body of a record.
pub open spec fn value_bytes(value: ValueView) -> Seq<u8> {
    match value {
        ValueView::Null => Seq::empty(),
        ValueView::I64(n) => if n == 0 || n == 1 {
            Seq::empty()
        } else {
            signed_bytes(n, int_width(n))
        },
        ValueView::Float(bits) => unsigned_bytes(bits as nat, 8),
        ValueView::String(s) => encode_utf8(s),
        ValueView::Blob(bytes) => bytes,
    }
}

/// The serial type of a value as a varint.
pub open spec fn type_bytes(value: ValueView) -> Seq<u8> {
    varint_encode(serial_code(value) as u64)
}

/// What `part` gives for each of the first `n` values, one after the
/// other.
pub open spec fn joined(values: Seq<ValueView>, part: spec_fn(ValueView) -> Seq<u8>, n: int) -> Seq<
    u8,
>
    decreases n,
{
    if n <= 0 {
        Seq::empty()
    } else {
        joined(values, part, n - 1) + part(values[n - 1])
    }
}

/// The serial types of the values as varints, one after the other.
pub open spec fn types_part() -> spec_fn(ValueView) -> Seq<u8> {
    |value: ValueView| type_bytes(value)
}

/// The bytes of the values in the body, one after the other.
pub open spec fn body_part() -> spec_fn(ValueView) -> Seq<u8> {
    |value: ValueView| value_bytes(value)
}

/// The length of a record header whose serial types take `types` bytes:
/// that number and the length of the varint that holds the sum.
pub open spec fn header_length(types: nat) -> nat {
    if types + 1 < 0x80 {
        types + 1
    } else if types + 2 < 0x4000 {
        types + 2
    } else if types + 3 < 0x20_0000 {
        types + 3
    } else if types + 4 < 0x1000_0000 {
        types + 4
    } else if types + 5 < 0x8_0000_0000 {
        types + 5
    } else if types + 6 < 0x400_0000_0000 {
        types + 6
    } else if types + 7 < 0x2_0000_0000_0000 {
        types + 7
    } else if types + 8 < 0x100_0000_0000_0000 {
        types + 8
    } else {
        types + 9
    }
}

/// The record that holds the values: the length of the header, the serial
/// types, and the bytes of the values.
pub open spec fn encode_record(values: Seq<ValueView>) -> Seq<u8> {
    let types = joined(values, types_part(), values.len() as int);
    varint_encode(header_length(types.len()) as u64) + types + joined(
        values,
        body_part(),
        values.len() as int,
    )
}

/// The header entry of a value.
pub open spec fn field_of(value: ValueView) -> RecordField {
    RecordField {
        field_size: value_bytes(value).len() as u64,
        field_type: serial_kind(serial_code(value)),
    }
}

/// The header entries of the values.
pub open spec fn fields_of(values: Seq<ValueView>) -> Seq<RecordField> {
    Seq::new(values.len(), |i: int| field_of(values[i]))
}

/// Whether a value can be stored: an integer has 64 bits, and a text or a
/// blob is short enough for its serial type to have 64 bits.
pub open spec fn storable(value: ValueView) -> bool {
    match value {
        ValueView::I64(n) => i64::MIN <= n <= i64::MAX,
        ValueView::String(s) => 13 + 2 * encode_utf8(s).len() <= u64::MAX,
        ValueView::Blob(bytes) => 12 + 2 * bytes.len() <= u64::MAX,
        _ => true,
    }
}

/// Whether values can be stored in one record: each can be stored, and the
/// record is short enough for the machine to hold it.
pub open spec fn all_storable(values: Seq<ValueView>) -> bool {
    &&& forall|i: int| 0 <= i < values.len() ==> storable(#[trigger] values[i])
    &&& encode_record(values).len() <= usize::MAX
    &&& joined(values, types_part(), values.len() as int).len() + 9 <= u64::MAX
}

/// A value is read back from its own bytes under its own serial type.
pub proof fn lemma_value_round_trip(value: ValueView)
    requires
        storable(value),
    ensures
        serial_width(serial_code(value)) == value_bytes(value).len(),
        value_of(serial_kind(serial_code(value)), value_bytes(value)) == Some(value),
{
    lemma_pow256_values();
    match value {
        ValueView::I64(n) => {
            if n != 0 && n != 1 {
                lemma_signed_bytes(n, int_width(n));
            }
        },
        ValueView::Float(bits) => {
            lemma_unsigned_bytes(bits as nat, 8);
        },
        ValueView::String(s) => {
            encode_utf8_valid_utf8(s);
            encode_utf8_decode_utf8(s);
        },
        _ => {},
    }
}

/// What is joined for one value more ends with the part of that value.
pub proof fn lemma_joined_step(values: Seq<ValueView>, part: spec_fn(ValueView) -> Seq<u8>, n: int)
    requires
        0 <= n < values.len(),
    ensures
        joined(values, part, n + 1) == joined(values, part, n) + part(values[n]),
        joined(values, part, n).len() <= joined(values, part, n + 1).len(),
{
}

/// What is joined for the first `n` values starts what is joined for the
/// first `m`.
pub proof fn lemma_joined_prefix(
    values: Seq<ValueView>,
    part: spec_fn(ValueView) -> Seq<u8>,
    n: int,
    m: int,
)
    requires
        0 <= n <= m <= values.len(),
    ensures
        joined(values, part, n).len() <= joined(values, part, m).len(),
        joined(values, part, m).subrange(0, joined(values, part, n).len() as int) == joined(
            values,
            part,
            n,
        ),
    decreases m - n,
{
    if n < m {
        lemma_joined_prefix(values, part, n, m - 1);
        let shorter = joined(values, part, m - 1);
        let longer = joined(values, part, m);
        assert(longer == shorter + part(values[m - 1]));
        assert(longer.subrange(0, joined(values, part, n).len() as int) =~= shorter.subrange(
            0,
            joined(values, part, n).len() as int,
        ));
    } else {
        assert(joined(values, part, n).subrange(0, joined(values, part, n).len() as int)
            =~= joined(values, part, n));
    }
}

/// The header length is the length of its own varint and of the serial
/// types.
pub proof fn lemma_header_length(types: nat)
    requires
        types + 9 <= u64::MAX,
    ensures
        header_length(types) == varint_len(header_length(types) as u64) + types,
        header_length(types) <= u64::MAX,
{
}

/// The body bytes before column `i` are those of the values before it.
pub proof fn lemma_column_start_joined(values: Seq<ValueView>, i: int)
    requires
        0 <= i <= values.len(),
        joined(values, body_part(), values.len() as int).len() <= usize::MAX,
    ensures
        column_start(fields_of(values), i) == joined(values, body_part(), i).len(),
    decreases i,
{
    if i > 0 {
        lemma_column_start_joined(values, i - 1);
        lemma_joined_prefix(values, body_part(), i, values.len() as int);
        lemma_joined_step(values, body_part(), i - 1);
    }
}

/// Reading one serial type off the header.
proof fn lemma_header_step(
    payload: Seq<u8>,
    pos: nat,
    end: nat,
    acc: Seq<RecordField>,
    code: u64,
    rest: Seq<u8>,
)
    requires
        pos < end <= payload.len(),
        payload.subrange(pos as int, end as int) == varint_encode(code) + rest,
    ensures
        pos + varint_len(code) <= end,
        header_fields(payload, pos, end, acc) == header_fields(
            payload,
            pos + varint_len(code),
            end,
            acc.push(field_for(code as nat)),
        ),
{
    lemma_varint_round_trip_before(code, rest);
    lemma_varint_decode_bounds(payload.subrange(pos as int, end as int));
}

/// Where the serial type of value `k` starts in the types of a header.
pub open spec fn type_offset(values: Seq<ValueView>, k: int) -> nat {
    joined(values, types_part(), k).len()
}

/// Where the bytes of value `k` start in the body of a record.
pub open spec fn body_offset(values: Seq<ValueView>, k: int) -> nat {
    joined(values, body_part(), k).len()
}

/// After the serial types of the first `k` values come that of value `k`
/// and then the rest.
proof fn lemma_types_split(values: Seq<ValueView>, k: int)
    requires
        0 <= k < values.len(),
    ensures
        type_offset(values, k) + type_bytes(values[k]).len() == type_offset(values, k + 1),
        type_offset(values, k + 1) <= type_offset(values, values.len() as int),
        joined(values, types_part(), values.len() as int).subrange(
            type_offset(values, k) as int,
            type_offset(values, values.len() as int) as int,
        ) == type_bytes(values[k]) + joined(values, types_part(), values.len() as int).subrange(
            type_offset(values, k + 1) as int,
            type_offset(values, values.len() as int) as int,
        ),
{
    let n = values.len() as int;
    let types = joined(values, types_part(), n);
    lemma_joined_prefix(values, types_part(), k + 1, n);
    let upto = joined(values, types_part(), k + 1);
    assert(upto == joined(values, types_part(), k) + type_bytes(values[k]));
    let tk = type_offset(values, k) as int;
    let tk1 = type_offset(values, k + 1) as int;
    assert forall|j: int| 0 <= j < type_bytes(values[k]).len() implies types[tk + j] == type_bytes(
        values[k],
    )[j] by {
        assert(types.subrange(0, tk1)[tk + j] == types[tk + j]);
    }
    assert(types.subrange(tk, types.len() as int) =~= type_bytes(values[k]) + types.subrange(
        tk1,
        types.len() as int,
    ));
}

/// The bytes of the first `k + 1` values are those of the first `k` and
/// then of value `k`, and they start the body.
proof fn lemma_body_split(values: Seq<ValueView>, k: int)
    requires
        0 <= k < values.len(),
    ensures
        body_offset(values, k) + value_bytes(values[k]).len() == body_offset(values, k + 1),
        body_offset(values, k + 1) <= body_offset(values, values.len() as int),
        joined(values, body_part(), values.len() as int).subrange(
            body_offset(values, k) as int,
            body_offset(values, k + 1) as int,
        ) == value_bytes(values[k]),
{
    let n = values.len() as int;
    let body = joined(values, body_part(), n);
    lemma_joined_prefix(values, body_part(), k + 1, n);
    let upto = joined(values, body_part(), k + 1);
    assert(upto == joined(values, body_part(), k) + value_bytes(values[k]));
    let bk = body_offset(values, k) as int;
    let bk1 = body_offset(values, k + 1) as int;
    assert forall|j: int| 0 <= j < value_bytes(values[k]).len() implies body[bk + j]
        == value_bytes(values[k])[j] by {
        assert(body.subrange(0, bk1)[bk + j] == body[bk + j]);
    }
    assert(body.subrange(bk, bk1) =~= value_bytes(values[k]));
}

/// Reading the header from the serial type of value `k` on gives the
/// header entries of all the values, where the payload holds the serial
/// types from `start` on and the body after them.
proof fn lemma_header_round_trip(payload: Seq<u8>, values: Seq<ValueView>, start: nat, k: int)
    requires
        forall|i: int| 0 <= i < values.len() ==> storable(#[trigger] values[i]),
        0 <= k <= values.len(),
        start + type_offset(values, values.len() as int) + body_offset(
            values,
            values.len() as int,
        ) == payload.len() <= usize::MAX,
        payload.subrange(
            start as int,
            (start + type_offset(values, values.len() as int)) as int,
        ) == joined(values, types_part(), values.len() as int),
    ensures
        header_fields(
            payload,
            start + type_offset(values, k),
            start + type_offset(values, values.len() as int),
            fields_of(values).take(k),
        ) == Ok::<Seq<RecordField>, nat>(fields_of(values)),
    decreases values.len() - k,
{
    let n = values.len() as int;
    let types = joined(values, types_part(), n);
    let end = start + type_offset(values, n);
    let pos = start + type_offset(values, k);
    if k == n {
        assert(fields_of(values).take(k) =~= fields_of(values));
    } else {
        let value = values[k];
        let code = serial_code(value);
        lemma_types_split(values, k);
        lemma_body_split(values, k);
        lemma_value_round_trip(value);
        let next = start + type_offset(values, k + 1);
        let rest = types.subrange(type_offset(values, k + 1) as int, types.len() as int);
        assert(payload.subrange(pos as int, end as int) =~= payload.subrange(
            start as int,
            end as int,
        ).subrange(type_offset(values, k) as int, types.len() as int));
        assert(storable(value));
        lemma_varint_round_trip_before(code as u64, rest);
        lemma_header_step(
            payload,
            pos,
            end,
            fields_of(values).take(k),
            code as u64,
            rest,
        );
        assert(fields_of(values).take(k).push(field_of(value)) =~= fields_of(values).take(k + 1));
        lemma_header_round_trip(payload, values, start, k + 1);
    }
}

/// A record is read back as the values that it was made of: values
/// encoded with the serial types decode to equal values, whatever their
/// kinds.
pub proof fn lemma_record_round_trip(values: Seq<ValueView>)
    requires
        all_storable(values),
    ensures
        decode_record(encode_record(values)) == Ok::<RecordView, DbError>(
            RecordView { fields: fields_of(values), values },
        ),
{
    let n = values.len() as int;
    let payload = encode_record(values);
    let types = joined(values, types_part(), n);
    let body = joined(values, body_part(), n);
    let h = header_length(types.len());
    let head = varint_encode(h as u64);
    let start = varint_len(h as u64);
    let fields = fields_of(values);
    lemma_header_length(types.len());
    lemma_varint_round_trip_before(h as u64, types + body);
    assert(payload =~= head + (types + body));
    assert(payload.subrange(start as int, (start + types.len()) as int) =~= types);
    lemma_header_round_trip(payload, values, start, 0);
    assert(fields.take(0) =~= Seq::<RecordField>::empty());
    assert(record_header(payload) == Ok::<(Seq<RecordField>, nat), DbError>((fields, h)));
    assert forall|i: int| 0 <= i < fields.len() implies column_value(payload, h, fields, i)
        == Some(values[i]) by {
        lemma_column_start_joined(values, i);
        lemma_joined_prefix(values, body_part(), i, n);
        lemma_joined_prefix(values, body_part(), i + 1, n);
        lemma_joined_step(values, body_part(), i);
        lemma_value_round_trip(values[i]);
        let from = joined(values, body_part(), i).len() as int;
        let to = joined(values, body_part(), i + 1).len() as int;
        assert(body.subrange(0, to) == joined(values, body_part(), i) + value_bytes(values[i]));
        assert(column_bytes(payload, h, fields, i) =~= value_bytes(values[i])) by {
            assert forall|j: int| 0 <= j < value_bytes(values[i]).len() implies payload[h + from
                + j] == value_bytes(values[i])[j] by {
                assert(payload[h + from + j] == body[from + j]);
                assert(body.subrange(0, to)[from + j] == body[from + j]);
            }
        }
    }
    lemma_column_start_joined(values, n);
    lemma_all_readable(payload, h, fields, 0);
    assert(record_values(payload, h, fields)->Ok_0 =~= values);
}

/// Writes `v` in `width` bytes, most significant first.
pub fn write_unsigned(v: u64, width: usize) -> (bytes: Vec<u8>)
    requires
        width <= 8,
    ensures
        bytes@ == unsigned_bytes(v as nat, width as nat),
{
    let mut rest: u64 = v;
    let mut reversed: Vec<u8> = Vec::new();
    let mut k: usize = 0;
    while k < width
        invariant
            k <= width,
            reversed@.len() == k,
            unsigned_bytes(v as nat, width as nat) =~= unsigned_bytes(
                rest as nat,
                (width - k) as nat,
            ) + reversed@.reverse(),
        decreases width - k,
    {
        let ghost before = reversed@;
        reversed.push((rest % 256) as u8);
        proof {
            assert(reversed@.reverse() =~= seq![(rest % 256) as u8] + before.reverse());
        }
        rest = rest / 256;
        k = k + 1;
    }
    let mut bytes: Vec<u8> = Vec::new();
    let mut j: usize = reversed.len();
    while j > 0
        invariant
            j <= reversed@.len(),
            bytes@ =~= reversed@.reverse().subrange(0, reversed@.len() - j),
        decreases j,
    {
        j = j - 1;
        bytes.push(reversed[j]);
    }
    proof {
        assert(reversed@.reverse().subrange(0, reversed@.len() as int) =~= reversed@.reverse());
    }
    bytes
}

/// The number of bytes in which an integer is stored.
pub fn width_of(n: i64) -> (width: usize)
    ensures
        width == int_width(n as int),
        fits(n as int, width as nat),
        1 <= width <= 8,
{
    proof {
        lemma_pow256_values();
    }
    if -0x80 <= n && n < 0x80 {
        1
    } else if -0x8000 <= n && n < 0x8000 {
        2
    } else if -0x80_0000 <= n && n < 0x80_0000 {
        3
    } else if -0x8000_0000 <= n && n < 0x8000_0000 {
        4
    } else if -0x8000_0000_0000 <= n && n < 0x8000_0000_0000 {
        6
    } else {
        8
    }
}

/// Writes `n` in `width` bytes in two's complement, most significant first.
pub fn write_signed(n: i64, width: usize) -> (bytes: Vec<u8>)
    requires
        fits(n as int, width as nat),
        width <= 8,
    ensures
        bytes@ == signed_bytes(n as int, width as nat),
{
    proof {
        lemma_pow256_values();
    }
    let modulus: i128 = if width == 1 {
        0x100
    } else if width == 2 {
        0x1_0000
    } else if width == 3 {
        0x100_0000
    } else if width == 4 {
        0x1_0000_0000
    } else if width == 5 {
        0x100_0000_0000
    } else if width == 6 {
        0x1_0000_0000_0000
    } else if width == 7 {
        0x100_0000_0000_0000
    } else {
        0x1_0000_0000_0000_0000
    };
    let pattern: u64 = if n < 0 {
        (n as i128 + modulus) as u64
    } else {
        n as u64
    };
    write_unsigned(pattern, width)
}

/// The serial type of a value, and its bytes in the body of a record.
pub fn encode_value(value: &Value) -> (encoded: (u64, Vec<u8>))
    requires
        storable(value@),
    ensures
        encoded.0 == serial_code(value@),
        encoded.1@ == value_bytes(value@),
{
    match value {
        Value::Null => (0, Vec::new()),
        Value::I64(n) => {
            if *n == 0 {
                (8, Vec::new())
            } else if *n == 1 {
                (9, Vec::new())
            } else {
                let width = width_of(*n);
                let code: u64 = if width <= 4 {
                    width as u64
                } else if width == 6 {
                    5
                } else {
                    6
                };
                (code, write_signed(*n, width))
            }
        },
        Value::Float(bits) => (7, write_unsigned(*bits, 8)),
        Value::String(s) => {
            let bytes = s.as_str().as_bytes_vec();
            (13 + 2 * (bytes.len() as u64), bytes)
        },
        Value::Blob(blob) => {
            let bytes = vstd::slice::slice_to_vec(blob.as_slice());
            (12 + 2 * (bytes.len() as u64), bytes)
        },
    }
}

/// The length of a record header whose serial types take `types` bytes.
pub fn header_length_of(types: u64) -> (length: u64)
    requires
        types + 9 <= u64::MAX,
    ensures
        length == header_length(types as nat),
{
    if types + 1 < 0x80 {
        types + 1
    } else if types + 2 < 0x4000 {
        types + 2
    } else if types + 3 < 0x20_0000 {
        types + 3
    } else if types + 4 < 0x1000_0000 {
        types + 4
    } else if types + 5 < 0x8_0000_0000 {
        types + 5
    } else if types + 6 < 0x400_0000_0000 {
        types + 6
    } else if types + 7 < 0x2_0000_0000_0000 {
        types + 7
    } else if types + 8 < 0x100_0000_0000_0000 {
        types + 8
    } else {
        types + 9
    }
}

/// Writes the record that holds the values.
pub fn write_record(values: &Vec<Value>) -> (payload: Vec<u8>)
    requires
        all_storable(values_view(values@)),
    ensures
        payload@ == encode_record(values_view(values@)),
{
    let ghost views = values_view(values@);
    let mut types: Vec<u8> = Vec::new();
    let mut body: Vec<u8> = Vec::new();
    let mut i: usize = 0;
    while i < values.len()
        invariant
            i <= values@.len(),
            views == values_view(values@),
            all_storable(views),
            types@ == joined(views, types_part(), i as int),
            body@ == joined(views, body_part(), i as int),
        decreases values@.len() - i,
    {
        proof {
            assert(views[i as int] == values@[i as int]@);
            assert(storable(views[i as int]));
        }
        let (code, mut bytes) = encode_value(&values[i]);
        let mut kind = write_varint(code);
        types.append(&mut kind);
        body.append(&mut bytes);
        i = i + 1;
    }
    let mut payload = write_varint(header_length_of(types.len() as u64));
    payload.append(&mut types);
    payload.append(&mut body);
    payload
}

} // verus!
