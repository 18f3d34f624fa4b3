use vstd::prelude::*;
use vstd::slice::*;
use vstd::string::*;
use vstd::utf8::*;

use crate::error::DbError;
use crate::text::{decimal, decimal_text, text_from_utf8};
use crate::utils::{lemma_varint_decode_bounds, read_varint, varint_decode};

verus! {

broadcast use vstd::slice::group_slice_axioms;

/// 256 to the power `n`.
pub open spec fn pow256(n: nat) -> nat
    decreases n,
{
    if n == 0 {
        1
    } else {
        256 * pow256((n - 1) as nat)
    }
}

/// The number that `bytes` spell in base 256, most significant byte first.
pub open spec fn be_unsigned(bytes: Seq<u8>) -> nat
    decreases bytes.len(),
{
    if bytes.len() == 0 {
        0
    } else {
        be_unsigned(bytes.drop_last()) * 256 + bytes.last() as nat
    }
}

/// The two's-complement number that `bytes` spell, most significant byte
/// first: the sign is the high bit of the first byte.
pub open spec fn be_signed(bytes: Seq<u8>) -> int {
    if bytes.len() > 0 && bytes[0] >= 128 {
        be_unsigned(bytes) - pow256(bytes.len())
    } else {
        be_unsigned(bytes) as int
    }
}

/// The first powers of 256.
pub proof fn lemma_pow256_values()
    ensures
        pow256(0) == 1,
        pow256(1) == 0x100,
        pow256(2) == 0x1_0000,
        pow256(3) == 0x100_0000,
        pow256(4) == 0x1_0000_0000,
        pow256(5) == 0x100_0000_0000,
        pow256(6) == 0x1_0000_0000_0000,
        pow256(7) == 0x100_0000_0000_0000,
        pow256(8) == 0x1_0000_0000_0000_0000,
{
    reveal_with_fuel(pow256, 10);
}

/// The first byte fixes the range in which the whole number lies.
pub proof fn lemma_be_unsigned_range(bytes: Seq<u8>)
    requires
        bytes.len() >= 1,
    ensures
        bytes[0] as nat * pow256((bytes.len() - 1) as nat) <= be_unsigned(bytes),
        be_unsigned(bytes) < (bytes[0] as nat + 1) * pow256((bytes.len() - 1) as nat),
    decreases bytes.len(),
{
    if bytes.len() == 1 {
        assert(bytes.drop_last().len() == 0);
        assert(be_unsigned(bytes.drop_last()) == 0);
        assert(bytes.last() == bytes[0]);
        assert(be_unsigned(bytes) == bytes[0] as nat);
        assert(pow256(0) == 1);
    } else {
        let front = bytes.drop_last();
        lemma_be_unsigned_range(front);
        assert(front[0] == bytes[0]);
        let p = pow256((front.len() - 1) as nat);
        assert(pow256((bytes.len() - 1) as nat) == 256 * p);
        let b = bytes[0] as nat;
        assert(b * (256 * p) == (b * p) * 256) by (nonlinear_arith);
        assert((b + 1) * (256 * p) == ((b + 1) * p) * 256) by (nonlinear_arith);
        assert(be_unsigned(bytes) == be_unsigned(front) * 256 + bytes.last() as nat);
    }
}

/// A signed number of `n` bytes lies in the two's-complement range of
/// `8 * n` bits.
pub proof fn lemma_be_signed_range(bytes: Seq<u8>)
    requires
        bytes.len() >= 1,
    ensures
        -(128 * pow256((bytes.len() - 1) as nat)) <= be_signed(bytes),
        be_signed(bytes) < 128 * pow256((bytes.len() - 1) as nat),
{
    lemma_be_unsigned_range(bytes);
    let p = pow256((bytes.len() - 1) as nat);
    let b = bytes[0] as nat;
    assert(pow256(bytes.len()) == 256 * p);
    if b >= 128 {
        assert(b * p >= 128 * p) by (nonlinear_arith)
            requires
                b >= 128,
        ;
        assert((b + 1) * p <= 256 * p) by (nonlinear_arith)
            requires
                b + 1 <= 256,
        ;
    } else {
        assert((b + 1) * p <= 128 * p) by (nonlinear_arith)
            requires
                b + 1 <= 128,
        ;
    }
}

/// Reads the signed big-endian integer of `width` bytes at `offset`.
pub fn read_signed_at(input: &[u8], offset: usize, width: usize) -> (value: i64)
    requires
        1 <= width <= 8,
        offset + width <= input@.len(),
    ensures
        value == be_signed(input@.subrange(offset as int, offset + width)),
{
    let ghost bytes = input@.subrange(offset as int, offset + width);
    let mut acc: u64 = 0;
    let mut modulus: u128 = 1;
    let mut i: usize = 0;
    let len = input.len();
    proof {
        lemma_pow256_values();
        assert(bytes.subrange(0, 0) =~= Seq::<u8>::empty());
    }
    while i < width
        invariant
            i <= width <= 8,
            offset + width <= input@.len() <= usize::MAX,
            bytes == input@.subrange(offset as int, offset + width),
            acc == be_unsigned(bytes.subrange(0, i as int)),
            acc < pow256(i as nat),
            modulus == pow256(i as nat),
            pow256(8) == 0x1_0000_0000_0000_0000,
        decreases width - i,
    {
        proof {
            let next = bytes.subrange(0, i + 1);
            assert(next.drop_last() =~= bytes.subrange(0, i as int));
            assert(next.last() == input@[offset + i]);
            lemma_pow256_step(i as nat);
        }
        acc = acc * 256 + input[offset + i] as u64;
        modulus = modulus * 256;
        i = i + 1;
    }
    proof {
        assert(bytes.subrange(0, width as int) =~= bytes);
        lemma_be_signed_range(bytes);
        lemma_pow256_step((width - 1) as nat);
        assert(pow256(width as nat) == 256 * pow256((width - 1) as nat));
    }
    if input[offset] >= 128 {
        (acc as i128 - modulus as i128) as i64
    } else {
        acc as i64
    }
}

/// One more power of 256 is 256 times as much, and no more than the eighth.
proof fn lemma_pow256_step(i: nat)
    requires
        i < 8,
    ensures
        256 * pow256(i) == pow256(i + 1),
        pow256(i + 1) <= pow256(8),
{
    lemma_pow256_values();
    reveal_with_fuel(pow256, 10);
}

/// Reads the signed 8-bit integer at `offset`.
pub fn read_i8_at(input: &[u8], offset: usize) -> (value: i8)
    requires
        offset + 1 <= input@.len(),
    ensures
        value == be_signed(input@.subrange(offset as int, offset + 1)),
{
    proof {
        lemma_pow256_values();
        lemma_be_signed_range(input@.subrange(offset as int, offset + 1));
    }
    read_signed_at(input, offset, 1) as i8
}

/// Reads the signed big-endian 16-bit integer at `offset`.
pub fn read_i16_at(input: &[u8], offset: usize) -> (value: i16)
    requires
        offset + 2 <= input@.len(),
    ensures
        value == be_signed(input@.subrange(offset as int, offset + 2)),
{
    proof {
        lemma_pow256_values();
        lemma_be_signed_range(input@.subrange(offset as int, offset + 2));
    }
    read_signed_at(input, offset, 2) as i16
}

/// Reads the signed big-endian 24-bit integer at `offset`, sign-extended.
pub fn read_i24_at(input: &[u8], offset: usize) -> (value: i32)
    requires
        offset + 3 <= input@.len(),
    ensures
        value == be_signed(input@.subrange(offset as int, offset + 3)),
{
    proof {
        lemma_pow256_values();
        lemma_be_signed_range(input@.subrange(offset as int, offset + 3));
    }
    read_signed_at(input, offset, 3) as i32
}

/// Reads the signed big-endian 32-bit integer at `offset`.
pub fn read_i32_at(input: &[u8], offset: usize) -> (value: i32)
    requires
        offset + 4 <= input@.len(),
    ensures
        value == be_signed(input@.subrange(offset as int, offset + 4)),
{
    proof {
        lemma_pow256_values();
        lemma_be_signed_range(input@.subrange(offset as int, offset + 4));
    }
    read_signed_at(input, offset, 4) as i32
}

/// Reads the signed big-endian 48-bit integer at `offset`, sign-extended.
pub fn read_i48_at(input: &[u8], offset: usize) -> (value: i64)
    requires
        offset + 6 <= input@.len(),
    ensures
        value == be_signed(input@.subrange(offset as int, offset + 6)),
{
    read_signed_at(input, offset, 6)
}

/// Reads the signed big-endian 64-bit integer at `offset`.
pub fn read_i64_at(input: &[u8], offset: usize) -> (value: i64)
    requires
        offset + 8 <= input@.len(),
    ensures
        value == be_signed(input@.subrange(offset as int, offset + 8)),
{
    read_signed_at(input, offset, 8)
}

/// Reads the unsigned big-endian 64-bit integer at `offset`.
pub fn read_u64_at(input: &[u8], offset: usize) -> (value: u64)
    requires
        offset + 8 <= input@.len(),
    ensures
        value == be_unsigned(input@.subrange(offset as int, offset + 8)),
{
    let ghost bytes = input@.subrange(offset as int, offset + 8);
    let mut acc: u64 = 0;
    let mut i: usize = 0;
    let len = input.len();
    proof {
        lemma_pow256_values();
        assert(bytes.subrange(0, 0) =~= Seq::<u8>::empty());
    }
    while i < 8
        invariant
            i <= 8,
            offset + 8 <= input@.len() <= usize::MAX,
            bytes == input@.subrange(offset as int, offset + 8),
            acc == be_unsigned(bytes.subrange(0, i as int)),
            acc < pow256(i as nat),
            pow256(8) == 0x1_0000_0000_0000_0000,
        decreases 8 - i,
    {
        proof {
            let next = bytes.subrange(0, i + 1);
            assert(next.drop_last() =~= bytes.subrange(0, i as int));
            assert(next.last() == input@[offset + i]);
            lemma_pow256_step(i as nat);
        }
        acc = acc * 256 + input[offset + i] as u64;
        i = i + 1;
    }
    proof {
        assert(bytes.subrange(0, 8) =~= bytes);
    }
    acc
}

/// Reads the unsigned big-endian 32-bit integer at `offset`.
pub fn read_u32_at(input: &[u8], offset: usize) -> (value: u32)
    requires
        offset + 4 <= input@.len(),
    ensures
        value == be_unsigned(input@.subrange(offset as int, offset + 4)),
{
    let ghost bytes = input@.subrange(offset as int, offset + 4);
    let mut acc: u32 = 0;
    let mut i: usize = 0;
    let len = input.len();
    proof {
        lemma_pow256_values();
        assert(bytes.subrange(0, 0) =~= Seq::<u8>::empty());
    }
    while i < 4
        invariant
            i <= 4,
            offset + 4 <= input@.len() <= usize::MAX,
            bytes == input@.subrange(offset as int, offset + 4),
            acc == be_unsigned(bytes.subrange(0, i as int)),
            acc < pow256(i as nat),
            pow256(4) == 0x1_0000_0000,
        decreases 4 - i,
    {
        proof {
            let next = bytes.subrange(0, i + 1);
            assert(next.drop_last() =~= bytes.subrange(0, i as int));
            assert(next.last() == input@[offset + i]);
            lemma_pow256_step(i as nat);
            lemma_pow256_values();
        }
        acc = acc * 256 + input[offset + i] as u32;
        i = i + 1;
    }
    proof {
        assert(bytes.subrange(0, 4) =~= bytes);
    }
    acc
}

/// How a column is stored in the body of a record.
#[derive(Debug, Clone, Copy, PartialEq, Eq, Structural)]
pub enum RecordFieldType {
    Null,
    I8,
    I16,
    I24,
    I32,
    I48,
    I64,
    Float,
    Zero,
    One,
    String,
    Blob,
    /// One of the two reserved serial types; it reads as NULL.
    Variable,
}

/// One column of a record header: the number of bytes that the column takes
/// in the body, as its serial type says, and how to read them.
#[derive(Debug, Clone, Copy, PartialEq, Eq, Structural)]
pub struct RecordField {
    pub field_size: u64,
    pub field_type: RecordFieldType,
}

/// The storage kind that a serial type stands for.
pub open spec fn serial_kind(code: nat) -> RecordFieldType {
    if code == 0 {
        RecordFieldType::Null
    } else if code == 1 {
        RecordFieldType::I8
    } else if code == 2 {
        RecordFieldType::I16
    } else if code == 3 {
        RecordFieldType::I24
    } else if code == 4 {
        RecordFieldType::I32
    } else if code == 5 {
        RecordFieldType::I48
    } else if code == 6 {
        RecordFieldType::I64
    } else if code == 7 {
        RecordFieldType::Float
    } else if code == 8 {
        RecordFieldType::Zero
    } else if code == 9 {
        RecordFieldType::One
    } else if code == 10 || code == 11 {
        RecordFieldType::Variable
    } else if code % 2 == 0 {
        RecordFieldType::Blob
    } else {
        RecordFieldType::String
    }
}

/// The number of body bytes that a column of a serial type takes.
pub open spec fn serial_width(code: nat) -> nat {
    if code <= 4 {
        code
    } else if code == 5 {
        6
    } else if code == 6 || code == 7 {
        8
    } else if code <= 11 {
        0
    } else if code % 2 == 0 {
        ((code - 12) / 2) as nat
    } else {
        ((code - 13) / 2) as nat
    }
}

/// The storage kind and the width of a serial type.
pub fn serial_type(code: u64) -> (field: (RecordFieldType, u64))
    ensures
        field.0 == serial_kind(code as nat),
        field.1 == serial_width(code as nat),
{
    if code == 0 {
        (RecordFieldType::Null, 0)
    } else if code == 1 {
        (RecordFieldType::I8, 1)
    } else if code == 2 {
        (RecordFieldType::I16, 2)
    } else if code == 3 {
        (RecordFieldType::I24, 3)
    } else if code == 4 {
        (RecordFieldType::I32, 4)
    } else if code == 5 {
        (RecordFieldType::I48, 6)
    } else if code == 6 {
        (RecordFieldType::I64, 8)
    } else if code == 7 {
        (RecordFieldType::Float, 8)
    } else if code == 8 {
        (RecordFieldType::Zero, 0)
    } else if code == 9 {
        (RecordFieldType::One, 0)
    } else if code == 10 || code == 11 {
        (RecordFieldType::Variable, 0)
    } else if code % 2 == 0 {
        (RecordFieldType::Blob, (code - 12) / 2)
    } else {
        (RecordFieldType::String, (code - 13) / 2)
    }
}

/// The column that a serial type describes.
pub open spec fn field_for(code: nat) -> RecordField {
    RecordField { field_size: serial_width(code) as u64, field_type: serial_kind(code) }
}

/// The columns that the serial types in `payload[pos..end]` describe, after
/// the columns `acc`. Where a serial type runs over `end`, the failure is
/// the place of that serial type.
pub open spec fn header_fields(
    payload: Seq<u8>,
    pos: nat,
    end: nat,
    acc: Seq<RecordField>,
) -> Result<Seq<RecordField>, nat>
    decreases end - pos,
{
    if pos >= end {
        Ok(acc)
    } else {
        let first = varint_decode(payload.subrange(pos as int, end as int));
        if first is Some && 1 <= first->Some_0.0 <= end - pos {
            header_fields(
                payload,
                pos + first->Some_0.0,
                end,
                acc.push(field_for(first->Some_0.1)),
            )
        } else {
            Err(pos)
        }
    }
}

/// The header of the record in `payload`: its columns and its length in
/// bytes. The header starts with its own length as a varint; one serial
/// type for each column follows, and the last of them ends where the header
/// ends. Whether the payload holds the columns is no matter of the header.
pub open spec fn record_header(payload: Seq<u8>) -> Result<(Seq<RecordField>, nat), DbError> {
    match varint_decode(payload) {
        None => Err(DbError::MalformedVarint { offset: 0 }),
        Some((n, h)) => if n <= h <= payload.len() {
            match header_fields(payload, n, h, Seq::empty()) {
                Ok(fields) => Ok((fields, h)),
                Err(at) => Err(DbError::MalformedRecord { offset: at as usize }),
            }
        } else {
            Err(DbError::MalformedRecord { offset: 0 })
        },
    }
}

/// The number of body bytes before column `i`.
pub open spec fn column_start(fields: Seq<RecordField>, i: int) -> nat
    decreases i,
{
    if i <= 0 {
        0
    } else {
        column_start(fields, i - 1) + fields[i - 1].field_size as nat
    }
}

/// The number of body bytes of all the columns.
pub open spec fn total_width(fields: Seq<RecordField>) -> nat {
    column_start(fields, fields.len() as int)
}

/// The header of a record: one entry for each column.
#[derive(Debug, Clone)]
pub struct RecordHeader {
    pub fields: Vec<RecordField>,
}

impl View for RecordHeader {
    type V = Seq<RecordField>;

    open spec fn view(&self) -> Seq<RecordField> {
        self.fields@
    }
}

impl RecordHeader {
    /// Reads the header of the record in `payload`, and returns it with its
    /// length in bytes, which is where the body starts. A failure says where
    /// in the payload it stands.
    #[verifier::loop_isolation(false)]
    pub fn parse(payload: &[u8]) -> (res: Result<(Self, usize), DbError>)
        ensures
            match record_header(payload@) {
                Ok((fields, h)) => res is Ok && res->Ok_0.0@ == fields && res->Ok_0.1 == h,
                Err(e) => res == Err::<(Self, usize), DbError>(e),
            },
    {
        let len = payload.len();
        let (n, h64) = match read_varint(payload) {
            Ok(pair) => pair,
            Err(e) => {
                return Err(e);
            },
        };
        if h64 < n as u64 || h64 > len as u64 {
            return Err(DbError::MalformedRecord { offset: 0 });
        }
        let h: usize = h64 as usize;
        let mut pos: usize = n;
        let mut fields: Vec<RecordField> = Vec::new();
        while pos < h
            invariant
                n <= pos <= h <= len == payload@.len(),
                header_fields(payload@, n as nat, h as nat, Seq::empty()) == header_fields(
                    payload@,
                    pos as nat,
                    h as nat,
                    fields@,
                ),
            decreases h - pos,
        {
            let rest = slice_subrange(payload, pos, h);
            match read_varint(rest) {
                Err(_) => {
                    return Err(DbError::MalformedRecord { offset: pos });
                },
                Ok((m, code)) => {
                    let (field_type, width) = serial_type(code);
                    fields.push(RecordField { field_size: width, field_type });
                    pos = pos + m;
                },
            }
        }
        Ok((RecordHeader { fields }, h))
    }
}

/// A decoded column value. A double is held as its IEEE-754 bit pattern.
#[derive(Debug, Clone, PartialEq)]
pub enum Value {
    Null,
    I64(i64),
    Float(u64),
    String(String),
    Blob(Vec<u8>),
}

/// A column value as a plain value.
pub ghost enum ValueView {
    Null,
    I64(int),
    Float(u64),
    String(Seq<char>),
    Blob(Seq<u8>),
}

impl View for Value {
    type V = ValueView;

    open spec fn view(&self) -> ValueView {
        match self {
            Value::Null => ValueView::Null,
            Value::I64(n) => ValueView::I64(*n as int),
            Value::Float(bits) => ValueView::Float(*bits),
            Value::String(s) => ValueView::String(s@),
            Value::Blob(bytes) => ValueView::Blob(bytes@),
        }
    }
}

/// The values as plain values.
pub open spec fn values_view(values: Seq<Value>) -> Seq<ValueView> {
    Seq::new(values.len(), |i: int| values[i]@)
}

/// One column of the body of a record.
#[derive(Debug, Clone, PartialEq)]
pub struct RecordBody {
    pub value: Value,
}

impl View for RecordBody {
    type V = ValueView;

    open spec fn view(&self) -> ValueView {
        self.value@
    }
}

/// A record: its header and one value for each column.
#[derive(Debug, Clone)]
pub struct Record {
    pub header: RecordHeader,
    pub body: Vec<RecordBody>,
}

/// A record as a plain value.
pub ghost struct RecordView {
    pub fields: Seq<RecordField>,
    pub values: Seq<ValueView>,
}

impl View for Record {
    type V = RecordView;

    open spec fn view(&self) -> RecordView {
        RecordView {
            fields: self.header.fields@,
            values: Seq::new(self.body@.len(), |i: int| self.body@[i]@),
        }
    }
}

/// Whether the width of a column is the one that its kind has.
pub open spec fn well_sized(field: RecordField) -> bool {
    match field.field_type {
        RecordFieldType::Null | RecordFieldType::Zero | RecordFieldType::One
        | RecordFieldType::Variable => field.field_size == 0,
        RecordFieldType::I8 => field.field_size == 1,
        RecordFieldType::I16 => field.field_size == 2,
        RecordFieldType::I24 => field.field_size == 3,
        RecordFieldType::I32 => field.field_size == 4,
        RecordFieldType::I48 => field.field_size == 6,
        RecordFieldType::I64 | RecordFieldType::Float => field.field_size == 8,
        RecordFieldType::String | RecordFieldType::Blob => true,
    }
}

/// The 64-bit two's-complement number with the bit pattern of `v`.
pub open spec fn signed64(v: u64) -> int {
    if v < 0x8000_0000_0000_0000 {
        v as int
    } else {
        v - 0x1_0000_0000_0000_0000
    }
}

/// Reads a 64-bit pattern as a two's-complement number.
pub fn to_signed(v: u64) -> (n: i64)
    ensures
        n == signed64(v),
{
    if v < 0x8000_0000_0000_0000 {
        v as i64
    } else {
        (v as i128 - 0x1_0000_0000_0000_0000) as i64
    }
}

/// The value of a column of the given kind that is stored in `bytes`;
/// `None` where a text column is not UTF-8.
pub open spec fn value_of(kind: RecordFieldType, bytes: Seq<u8>) -> Option<ValueView> {
    match kind {
        RecordFieldType::Null | RecordFieldType::Variable => Some(ValueView::Null),
        RecordFieldType::Zero => Some(ValueView::I64(0)),
        RecordFieldType::One => Some(ValueView::I64(1)),
        RecordFieldType::Float => Some(ValueView::Float(be_unsigned(bytes) as u64)),
        RecordFieldType::String => if valid_utf8(bytes) {
            Some(ValueView::String(decode_utf8(bytes)))
        } else {
            None
        },
        RecordFieldType::Blob => Some(ValueView::Blob(bytes)),
        _ => Some(ValueView::I64(be_signed(bytes))),
    }
}

/// The bytes of column `i` in a payload whose body starts at `body`.
pub open spec fn column_bytes(
    payload: Seq<u8>,
    body: nat,
    fields: Seq<RecordField>,
    i: int,
) -> Seq<u8> {
    payload.subrange(
        (body + column_start(fields, i)) as int,
        body + column_start(fields, i) + fields[i].field_size,
    )
}

/// The value of column `i`.
pub open spec fn column_value(
    payload: Seq<u8>,
    body: nat,
    fields: Seq<RecordField>,
    i: int,
) -> Option<ValueView> {
    value_of(fields[i].field_type, column_bytes(payload, body, fields, i))
}

/// The first column at or after `i` whose value cannot be read; the number
/// of columns where all can be read.
pub open spec fn first_unreadable(
    payload: Seq<u8>,
    body: nat,
    fields: Seq<RecordField>,
    i: int,
) -> int
    decreases fields.len() - i,
{
    if i >= fields.len() {
        fields.len() as int
    } else if i >= 0 && column_value(payload, body, fields, i) is None {
        i
    } else {
        first_unreadable(payload, body, fields, i + 1)
    }
}

/// The values of all the columns, each read from its own bytes of the
/// body; where one of them cannot be read, the place of the first such
/// column in the payload.
pub open spec fn record_values(payload: Seq<u8>, body: nat, fields: Seq<RecordField>) -> Result<
    Seq<ValueView>,
    nat,
> {
    let bad = first_unreadable(payload, body, fields, 0);
    if bad < fields.len() {
        Err(body + column_start(fields, bad))
    } else {
        Ok(Seq::new(fields.len(), |i: int| column_value(payload, body, fields, i)->Some_0))
    }
}

/// The record that `payload` holds. The columns must take exactly the bytes
/// after the header, else the record is malformed where its body starts.
pub open spec fn decode_record(payload: Seq<u8>) -> Result<RecordView, DbError> {
    match record_header(payload) {
        Err(e) => Err(e),
        Ok((fields, h)) => if h + total_width(fields) != payload.len() {
            Err(DbError::MalformedRecord { offset: h as usize })
        } else {
            match record_values(payload, h, fields) {
                Err(at) => Err(DbError::MalformedRecord { offset: at as usize }),
                Ok(values) => Ok(RecordView { fields, values }),
            }
        },
    }
}

/// Where every column can be read, none is the first that cannot.
pub proof fn lemma_all_readable(payload: Seq<u8>, body: nat, fields: Seq<RecordField>, i: int)
    requires
        0 <= i <= fields.len(),
        forall|j: int| i <= j < fields.len() ==> column_value(payload, body, fields, j) is Some,
    ensures
        first_unreadable(payload, body, fields, i) == fields.len(),
    decreases fields.len() - i,
{
    if i < fields.len() {
        lemma_all_readable(payload, body, fields, i + 1);
    }
}

/// Whether every integer among the values is one of 64 bits.
pub open spec fn integers_fit(values: Seq<ValueView>) -> bool {
    forall|i: int|
        0 <= i < values.len() ==> ((#[trigger] values[i]) is I64 ==> i64::MIN
            <= values[i]->I64_0 <= i64::MAX)
}

/// Where no column from `i` on is the first that cannot be read, every one
/// of them can be read.
pub proof fn lemma_none_unreadable(payload: Seq<u8>, body: nat, fields: Seq<RecordField>, i: int)
    requires
        0 <= i,
        first_unreadable(payload, body, fields, i) >= fields.len(),
    ensures
        forall|j: int| i <= j < fields.len() ==> column_value(payload, body, fields, j) is Some,
    decreases fields.len() - i,
{
    if i < fields.len() {
        lemma_none_unreadable(payload, body, fields, i + 1);
    }
}

/// Every integer of a decoded record is one of 64 bits.
pub proof fn lemma_decoded_integers_fit(payload: Seq<u8>)
    ensures
        decode_record(payload) matches Ok(record) ==> integers_fit(record.values),
{
    if decode_record(payload) is Ok {
        let (fields, h) = record_header(payload)->Ok_0;
        let n = varint_decode(payload)->Some_0.0;
        lemma_header_well_sized(payload, n, h, Seq::empty());
        lemma_pow256_values();
        let values = record_values(payload, h, fields)->Ok_0;
        lemma_none_unreadable(payload, h, fields, 0);
        assert forall|i: int| 0 <= i < values.len() && (#[trigger] values[i]) is I64 implies
            i64::MIN <= values[i]->I64_0 <= i64::MAX by {
            lemma_column_start_monotone(fields, i + 1, fields.len() as int);
            let bytes = column_bytes(payload, h, fields, i);
            assert(well_sized(fields[i]));
            assert(bytes.len() == fields[i].field_size);
            assert(values[i] == column_value(payload, h, fields, i)->Some_0);
            assert(values[i] == value_of(fields[i].field_type, bytes)->Some_0);
            assert(column_value(payload, h, fields, i) is Some);
            let width = bytes.len();
            if width >= 1 {
                lemma_be_signed_range(bytes);
                assert(width == 1 || width == 2 || width == 3 || width == 4 || width == 6 || width
                    == 8);
            }
        }
    }
}

/// What column `i` shows where it holds `raw`: a NULL in the first column
/// of a row shows the row's id.
pub open spec fn shown_value(i: int, raw: ValueView, row_id: Option<u64>) -> ValueView {
    if i == 0 && raw is Null && row_id is Some {
        ValueView::I64(signed64(row_id->Some_0))
    } else {
        raw
    }
}

/// The record with the row id in place of a NULL in its first column.
pub open spec fn with_row_id(record: RecordView, row_id: Option<u64>) -> RecordView {
    RecordView {
        fields: record.fields,
        values: Seq::new(record.values.len(), |i: int| shown_value(i, record.values[i], row_id)),
    }
}

/// The record that the payload of a table row holds, with the row id in
/// place of a NULL in its first column.
pub open spec fn parse_record(payload: Seq<u8>, row_id: u64) -> Result<RecordView, DbError> {
    match decode_record(payload) {
        Err(e) => Err(e),
        Ok(record) => Ok(with_row_id(record, Some(row_id))),
    }
}

/// A later column starts no earlier.
pub proof fn lemma_column_start_monotone(fields: Seq<RecordField>, i: int, j: int)
    requires
        i <= j,
    ensures
        column_start(fields, i) <= column_start(fields, j),
    decreases j - i,
{
    if i < j {
        lemma_column_start_monotone(fields, i, j - 1);
    }
}

/// Every column of a header has the width of its kind.
pub proof fn lemma_header_well_sized(payload: Seq<u8>, pos: nat, end: nat, acc: Seq<RecordField>)
    requires
        forall|i: int| 0 <= i < acc.len() ==> well_sized(acc[i]),
    ensures
        header_fields(payload, pos, end, acc) matches Ok(fields) ==> forall|i: int|
            0 <= i < fields.len() ==> well_sized(fields[i]),
    decreases end - pos,
{
    if pos < end {
        let first = varint_decode(payload.subrange(pos as int, end as int));
        if first is Some && 1 <= first->Some_0.0 <= end - pos {
            lemma_varint_decode_bounds(payload.subrange(pos as int, end as int));
            lemma_header_well_sized(
                payload,
                pos + first->Some_0.0,
                end,
                acc.push(field_for(first->Some_0.1)),
            );
        }
    }
}

impl Record {
    /// Reads column `i` of a record whose body starts at `body`.
    fn read_value(payload: &[u8], offset: usize, field: &RecordField) -> (res: Option<Value>)
        requires
            well_sized(*field),
            offset + field.field_size <= payload@.len(),
        ensures
            match value_of(
                field.field_type,
                payload@.subrange(offset as int, offset + field.field_size),
            ) {
                Some(v) => res is Some && res->Some_0@ == v,
                None => res is None,
            },
    {
        let len = payload.len();
        match field.field_type {
            RecordFieldType::Null | RecordFieldType::Variable => Some(Value::Null),
            RecordFieldType::Zero => Some(Value::I64(0)),
            RecordFieldType::One => Some(Value::I64(1)),
            RecordFieldType::I8 => Some(Value::I64(read_i8_at(payload, offset) as i64)),
            RecordFieldType::I16 => Some(Value::I64(read_i16_at(payload, offset) as i64)),
            RecordFieldType::I24 => Some(Value::I64(read_i24_at(payload, offset) as i64)),
            RecordFieldType::I32 => Some(Value::I64(read_i32_at(payload, offset) as i64)),
            RecordFieldType::I48 => Some(Value::I64(read_i48_at(payload, offset))),
            RecordFieldType::I64 => Some(Value::I64(read_i64_at(payload, offset))),
            RecordFieldType::Float => Some(Value::Float(read_u64_at(payload, offset))),
            RecordFieldType::String => {
                let bytes = slice_to_vec(
                    slice_subrange(payload, offset, offset + field.field_size as usize),
                );
                match text_from_utf8(bytes) {
                    Some(text) => Some(Value::String(text)),
                    None => None,
                }
            },
            RecordFieldType::Blob => {
                let bytes = slice_to_vec(
                    slice_subrange(payload, offset, offset + field.field_size as usize),
                );
                Some(Value::Blob(bytes))
            },
        }
    }

    /// Decodes a record; with a row id, a NULL in the first column shows the
    /// row id.
    #[verifier::loop_isolation(false)]
    fn read(payload: &[u8], row_id: Option<u64>) -> (res: Result<Self, DbError>)
        ensures
            match decode_record(payload@) {
                Ok(record) => res is Ok && res->Ok_0@ == with_row_id(record, row_id),
                Err(e) => res == Err::<Self, DbError>(e),
            },
    {
        let (header, h) = match RecordHeader::parse(payload) {
            Ok(pair) => pair,
            Err(e) => {
                return Err(e);
            },
        };
        let ghost fields = header.fields@;
        let len = payload.len();
        proof {
            let n = varint_decode(payload@)->Some_0.0;
            lemma_header_well_sized(payload@, n, h as nat, Seq::empty());
        }
        let mut room: usize = len - h;
        let mut k: usize = 0;
        while k < header.fields.len()
            invariant
                k <= fields.len(),
                header.fields@ == fields,
                room + column_start(fields, k as int) == len - h,
            decreases fields.len() - k,
        {
            let width = header.fields[k].field_size;
            proof {
                lemma_column_start_monotone(fields, k + 1, fields.len() as int);
            }
            if width > room as u64 {
                return Err(DbError::MalformedRecord { offset: h });
            }
            room = room - width as usize;
            k = k + 1;
        }
        if room != 0 {
            return Err(DbError::MalformedRecord { offset: h });
        }
        let mut body: Vec<RecordBody> = Vec::new();
        let mut offset: usize = h;
        let mut i: usize = 0;
        while i < header.fields.len()
            invariant
                i <= fields.len(),
                header.fields@ == fields,
                offset == h + column_start(fields, i as int),
                body@.len() == i,
                first_unreadable(payload@, h as nat, fields, 0) == first_unreadable(
                    payload@,
                    h as nat,
                    fields,
                    i as int,
                ),
                forall|j: int|
                    0 <= j < i ==> column_value(payload@, h as nat, fields, j) is Some,
                forall|j: int|
                    0 <= j < i ==> #[trigger] body@[j]@ == shown_value(
                        j,
                        column_value(payload@, h as nat, fields, j)->Some_0,
                        row_id,
                    ),
            decreases fields.len() - i,
        {
            let field = header.fields[i];
            proof {
                lemma_column_start_monotone(fields, i + 1, fields.len() as int);
                assert(column_bytes(payload@, h as nat, fields, i as int) == payload@.subrange(
                    offset as int,
                    offset + field.field_size,
                ));
            }
            let raw = match Self::read_value(payload, offset, &field) {
                Some(raw) => raw,
                None => {
                    assert(column_value(payload@, h as nat, fields, i as int) is None);
                    return Err(DbError::MalformedRecord { offset });
                },
            };
            let value = match (&raw, row_id) {
                (Value::Null, Some(id)) => if i == 0 {
                    Value::I64(to_signed(id))
                } else {
                    raw
                },
                _ => raw,
            };
            body.push(RecordBody { value });
            offset = offset + field.field_size as usize;
            i = i + 1;
        }
        let record = Record { header, body };
        proof {
            let decoded = decode_record(payload@)->Ok_0;
            assert(record@.values =~= with_row_id(decoded, row_id).values);
        }
        Ok(record)
    }

    /// Decodes the record that `payload` holds.
    pub fn decode(payload: &[u8]) -> (res: Result<Self, DbError>)
        ensures
            match decode_record(payload@) {
                Ok(record) => res is Ok && res->Ok_0@ == record,
                Err(e) => res == Err::<Self, DbError>(e),
            },
    {
        let res = Self::read(payload, None);
        proof {
            if decode_record(payload@) is Ok {
                let record = decode_record(payload@)->Ok_0;
                assert(with_row_id(record, None).values =~= record.values);
            }
        }
        res
    }

    /// Decodes the record that the payload of a table row holds. Where the
    /// first column is NULL, it shows the row id instead.
    pub fn parse(payload: &[u8], row_id: u64) -> (res: Result<Self, DbError>)
        ensures
            match parse_record(payload@, row_id) {
                Ok(record) => res is Ok && res->Ok_0@ == record,
                Err(e) => res == Err::<Self, DbError>(e),
            },
    {
        Self::read(payload, Some(row_id))
    }
}

/// The text that a value shows as: `NULL`, an integer in decimal, a text
/// as it is, a blob as the text that its bytes spell in UTF-8. A double has
/// none here, nor has a blob that is not UTF-8.
pub open spec fn display(value: ValueView) -> Option<Seq<char>> {
    match value {
        ValueView::Null => Some("NULL"@),
        ValueView::I64(n) => Some(decimal(n)),
        ValueView::Float(_) => None,
        ValueView::String(s) => Some(s),
        ValueView::Blob(bytes) => if valid_utf8(bytes) {
            Some(decode_utf8(bytes))
        } else {
            None
        },
    }
}

impl Value {
    /// A copy of the value.
    pub fn duplicate(&self) -> (copy: Value)
        ensures
            copy@ == self@,
    {
        match self {
            Value::Null => Value::Null,
            Value::I64(n) => Value::I64(*n),
            Value::Float(bits) => Value::Float(*bits),
            Value::String(s) => Value::String(s.clone()),
            Value::Blob(bytes) => Value::Blob(slice_to_vec(bytes.as_slice())),
        }
    }

    /// The text that the value shows as, where it has one.
    pub fn to_text(&self) -> (text: Option<String>)
        ensures
            match display(self@) {
                Some(s) => text is Some && text->Some_0@ == s,
                None => text is None,
            },
    {
        match self {
            Value::Null => Some(String::from_str("NULL")),
            Value::I64(n) => Some(decimal_text(*n)),
            Value::Float(_) => None,
            Value::String(s) => Some(s.clone()),
            Value::Blob(bytes) => text_from_utf8(slice_to_vec(bytes.as_slice())),
        }
    }
}

} // verus!
