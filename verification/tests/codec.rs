use sqlite_reader::encode::{
    encode_value, header_length_of, width_of, write_record, write_signed, write_unsigned,
};
use sqlite_reader::error::DbError;
use sqlite_reader::record::{
    read_i16_at, read_i24_at, read_i32_at, read_i48_at, read_i64_at, read_i8_at, read_signed_at,
    read_u32_at, read_u64_at, serial_type, to_signed, Record, RecordField, RecordFieldType,
    RecordHeader, Value,
};
use sqlite_reader::utils::{read_be_word_at, read_varint, write_varint};

#[test]
fn varint_of_one_byte() {
    assert_eq!(read_varint(&[0x00]), Ok((1, 0)));
    assert_eq!(read_varint(&[0x7f]), Ok((1, 127)));
    assert_eq!(read_varint(&[0x7f, 0xff]), Ok((1, 127)));
}

#[test]
fn varint_of_two_bytes() {
    assert_eq!(read_varint(&[0x81, 0x00]), Ok((2, 128)));
    assert_eq!(read_varint(&[0x82, 0x2c]), Ok((2, 300)));
    assert_eq!(read_varint(&[0xff, 0x7f]), Ok((2, 16383)));
}

#[test]
fn varint_of_nine_bytes_takes_eight_bits_from_the_last() {
    assert_eq!(read_varint(&[0xff; 9]), Ok((9, u64::MAX)));
    assert_eq!(read_varint(&[0xff; 12]), Ok((9, u64::MAX)));
    let mut bytes = vec![0x80u8; 8];
    bytes.push(0x01);
    assert_eq!(read_varint(&bytes), Ok((9, 1)));
    bytes[8] = 0x80;
    assert_eq!(read_varint(&bytes), Ok((9, 128)));
}

#[test]
fn varint_cut_short_is_malformed() {
    assert_eq!(read_varint(&[]), Err(DbError::MalformedVarint { offset: 0 }));
    assert_eq!(read_varint(&[0x80]), Err(DbError::MalformedVarint { offset: 0 }));
    assert_eq!(read_varint(&[0xff; 8]), Err(DbError::MalformedVarint { offset: 0 }));
}

#[test]
fn varint_round_trip() {
    let mut samples = vec![0u64, 1, 127, 128, 255, 300, 16383, 16384, u64::MAX, u64::MAX - 1];
    for shift in 0..64 {
        samples.push(1u64 << shift);
        samples.push((1u64 << shift) - 1);
        samples.push((1u64 << shift) + 1);
    }
    for v in samples {
        let bytes = write_varint(v);
        assert!(1 <= bytes.len() && bytes.len() <= 9);
        assert_eq!(read_varint(&bytes), Ok((bytes.len(), v)));
        let mut longer = bytes.clone();
        longer.extend([0xaa, 0x55]);
        assert_eq!(read_varint(&longer), Ok((bytes.len(), v)));
    }
}

#[test]
fn varint_encoding_is_the_shortest() {
    assert_eq!(write_varint(0), vec![0x00]);
    assert_eq!(write_varint(127), vec![0x7f]);
    assert_eq!(write_varint(128), vec![0x81, 0x00]);
    assert_eq!(write_varint(300), vec![0x82, 0x2c]);
    assert_eq!(write_varint(1 << 56).len(), 9);
    assert_eq!(write_varint((1 << 56) - 1).len(), 8);
    assert_eq!(write_varint(u64::MAX), vec![0xff; 9]);
}

#[test]
fn big_endian_word() {
    assert_eq!(read_be_word_at(&[0x12, 0x34, 0x56], 0), 0x1234);
    assert_eq!(read_be_word_at(&[0x12, 0x34, 0x56], 1), 0x3456);
    assert_eq!(read_be_word_at(&[0xff, 0xff], 0), 65535);
}

#[test]
fn signed_integers_are_big_endian() {
    let bytes = [0x00, 0xff, 0x7f, 0x80, 0x00, 0x01, 0x02, 0x03, 0xfe];
    assert_eq!(read_i8_at(&bytes, 1), -1);
    assert_eq!(read_i8_at(&bytes, 2), 127);
    assert_eq!(read_i8_at(&bytes, 3), -128);
    assert_eq!(read_i16_at(&bytes, 0), 255);
    assert_eq!(read_i16_at(&bytes, 1), -129);
    assert_eq!(read_i16_at(&bytes, 3), -32768);
    assert_eq!(read_i32_at(&bytes, 4), 0x0001_0203);
    assert_eq!(read_i32_at(&bytes, 3), i32::MIN + 0x0102);
    assert_eq!(read_i64_at(&bytes, 1), i64::from_be_bytes([0xff, 0x7f, 0x80, 0, 1, 2, 3, 0xfe]));
    assert_eq!(read_u32_at(&bytes, 1), 0xff7f_8000);
    assert_eq!(read_u64_at(&bytes, 1), 0xff7f_8000_0102_03fe);
    assert_eq!(read_signed_at(&bytes, 8, 1), -2);
}

#[test]
fn widths_of_three_and_six_bytes_are_sign_extended() {
    assert_eq!(read_i24_at(&[0xff, 0xff, 0xff], 0), -1);
    assert_eq!(read_i24_at(&[0x80, 0x00, 0x00], 0), -8_388_608);
    assert_eq!(read_i24_at(&[0x7f, 0xff, 0xff], 0), 8_388_607);
    assert_eq!(read_i24_at(&[0x00, 0x01, 0x00], 0), 256);
    assert_eq!(read_i48_at(&[0xff; 6], 0), -1);
    assert_eq!(read_i48_at(&[0x80, 0, 0, 0, 0, 0], 0), -(1i64 << 47));
    assert_eq!(read_i48_at(&[0x7f, 0xff, 0xff, 0xff, 0xff, 0xff], 0), (1i64 << 47) - 1);
}

#[test]
fn row_ids_are_read_as_signed() {
    assert_eq!(to_signed(5), 5);
    assert_eq!(to_signed(u64::MAX), -1);
    assert_eq!(to_signed(1 << 63), i64::MIN);
}

#[test]
fn serial_types() {
    assert_eq!(serial_type(0), (RecordFieldType::Null, 0));
    assert_eq!(serial_type(1), (RecordFieldType::I8, 1));
    assert_eq!(serial_type(2), (RecordFieldType::I16, 2));
    assert_eq!(serial_type(3), (RecordFieldType::I24, 3));
    assert_eq!(serial_type(4), (RecordFieldType::I32, 4));
    assert_eq!(serial_type(5), (RecordFieldType::I48, 6));
    assert_eq!(serial_type(6), (RecordFieldType::I64, 8));
    assert_eq!(serial_type(7), (RecordFieldType::Float, 8));
    assert_eq!(serial_type(8), (RecordFieldType::Zero, 0));
    assert_eq!(serial_type(9), (RecordFieldType::One, 0));
    assert_eq!(serial_type(10), (RecordFieldType::Variable, 0));
    assert_eq!(serial_type(11), (RecordFieldType::Variable, 0));
    assert_eq!(serial_type(12), (RecordFieldType::Blob, 0));
    assert_eq!(serial_type(13), (RecordFieldType::String, 0));
    assert_eq!(serial_type(18), (RecordFieldType::Blob, 3));
    assert_eq!(serial_type(19), (RecordFieldType::String, 3));
}

fn values_of(record: &Record) -> Vec<Value> {
    record.body.iter().map(|column| column.value.clone()).collect()
}

#[test]
fn record_of_every_kind() {
    // null, i8, i16, i24, i32, i48, i64, double, 0, 1, blob of 2, text of 2
    let mut payload = vec![13u8, 0, 1, 2, 3, 4, 5, 6, 7, 8, 9, 16, 17];
    payload.push(0xfe);
    payload.extend([0x01, 0x00]);
    payload.extend([0xff, 0xff, 0xfd]);
    payload.extend([0x00, 0x01, 0x00, 0x00]);
    payload.extend([0x00, 0x01, 0x00, 0x00, 0x00, 0x00]);
    payload.extend((-5i64).to_be_bytes());
    payload.extend(2.5f64.to_be_bytes());
    payload.extend([0xca, 0xfe]);
    payload.extend("hé".as_bytes()[..2].iter());
    let payload_text = {
        let mut p = payload.clone();
        let n = p.len();
        p[n - 2] = b'o';
        p[n - 1] = b'k';
        p
    };
    let record = Record::decode(&payload_text).unwrap();
    assert_eq!(
        values_of(&record),
        vec![
            Value::Null,
            Value::I64(-2),
            Value::I64(256),
            Value::I64(-3),
            Value::I64(65536),
            Value::I64(1 << 32),
            Value::I64(-5),
            Value::Float(2.5f64.to_bits()),
            Value::I64(0),
            Value::I64(1),
            Value::Blob(vec![0xca, 0xfe]),
            Value::String("ok".to_string()),
        ]
    );
    assert_eq!(record.header.fields.len(), 12);
    assert_eq!(
        record.header.fields[10],
        RecordField { field_size: 2, field_type: RecordFieldType::Blob }
    );
}

#[test]
fn leading_null_of_a_row_shows_the_row_id() {
    let payload = [4u8, 0, 0, 15, b'a'];
    let row = Record::parse(&payload, 42).unwrap();
    assert_eq!(
        values_of(&row),
        vec![Value::I64(42), Value::Null, Value::String("a".to_string())]
    );
    let plain = Record::decode(&payload).unwrap();
    assert_eq!(
        values_of(&plain),
        vec![Value::Null, Value::Null, Value::String("a".to_string())]
    );
    let negative = Record::parse(&payload, u64::MAX).unwrap();
    assert_eq!(negative.body[0].value, Value::I64(-1));
}

#[test]
fn reserved_serial_types_read_as_null() {
    let record = Record::decode(&[3u8, 10, 11]).unwrap();
    assert_eq!(values_of(&record), vec![Value::Null, Value::Null]);
}

#[test]
fn record_header_gives_fields_and_length() {
    let (header, length) = RecordHeader::parse(&[3u8, 1, 15, 0x7f, b'x']).unwrap();
    assert_eq!(length, 3);
    assert_eq!(
        header.fields,
        vec![
            RecordField { field_size: 1, field_type: RecordFieldType::I8 },
            RecordField { field_size: 1, field_type: RecordFieldType::String },
        ]
    );
}

#[test]
fn records_that_do_not_fit_are_malformed() {
    // The header is longer than the payload.
    assert_eq!(Record::decode(&[5u8, 1]).err(), Some(DbError::MalformedRecord { offset: 0 }));
    // The header length is shorter than its own varint.
    assert_eq!(Record::decode(&[0u8]).err(), Some(DbError::MalformedRecord { offset: 0 }));
    // The last serial type runs over the end of the header.
    assert_eq!(
        Record::decode(&[3u8, 1, 0x81, 0x00]).err(),
        Some(DbError::MalformedRecord { offset: 2 })
    );
    // A column is wider than what is left of the body.
    assert_eq!(Record::decode(&[2u8, 2, 0x01]).err(), Some(DbError::MalformedRecord { offset: 2 }));
    // The body is longer than the columns.
    assert_eq!(
        Record::decode(&[2u8, 1, 0x01, 0x02]).err(),
        Some(DbError::MalformedRecord { offset: 2 })
    );
    // The payload is empty.
    assert_eq!(Record::decode(&[]).err(), Some(DbError::MalformedVarint { offset: 0 }));
    assert_eq!(
        RecordHeader::parse(&[3u8, 1, 0x81, 0x00]).err(),
        Some(DbError::MalformedRecord { offset: 2 })
    );
    // An empty record is fine.
    assert_eq!(Record::decode(&[1u8]).unwrap().body.len(), 0);
}

#[test]
fn text_that_is_not_utf8_is_rejected() {
    assert_eq!(Record::decode(&[2u8, 15, 0xff]).err(), Some(DbError::MalformedRecord { offset: 2 }));
    // The failure stands where the column starts.
    assert_eq!(
        Record::decode(&[4u8, 1, 15, 15, 7, b'a', 0x80]).err(),
        Some(DbError::MalformedRecord { offset: 6 })
    );
    assert_eq!(
        Record::parse(&[4u8, 1, 15, 15, 7, b'a', 0x80], 1).err(),
        Some(DbError::MalformedRecord { offset: 6 })
    );
    assert_eq!(
        values_of(&Record::decode(&[2u8, 17, 0xc3, 0xa9]).unwrap()),
        vec![Value::String("é".to_string())]
    );
    // The same bytes are fine as a blob.
    assert_eq!(
        values_of(&Record::decode(&[2u8, 14, 0xff]).unwrap()),
        vec![Value::Blob(vec![0xff])]
    );
}

#[test]
fn values_show_as_text() {
    assert_eq!(Value::Null.to_text(), Some("NULL".to_string()));
    assert_eq!(Value::I64(0).to_text(), Some("0".to_string()));
    assert_eq!(Value::I64(-120).to_text(), Some("-120".to_string()));
    assert_eq!(Value::I64(i64::MIN).to_text(), Some("-9223372036854775808".to_string()));
    assert_eq!(Value::I64(i64::MAX).to_text(), Some("9223372036854775807".to_string()));
    assert_eq!(Value::String("a b".to_string()).to_text(), Some("a b".to_string()));
    assert_eq!(Value::Blob(b"raw".to_vec()).to_text(), Some("raw".to_string()));
    assert_eq!(Value::Blob(vec![0xff]).to_text(), None);
    assert_eq!(Value::Float(0).to_text(), None);
    assert_eq!(Value::Blob(vec![1, 2]).duplicate(), Value::Blob(vec![1, 2]));
}

#[test]
fn integers_are_stored_in_the_least_width() {
    assert_eq!(width_of(2), 1);
    assert_eq!(width_of(-128), 1);
    assert_eq!(width_of(128), 2);
    assert_eq!(width_of(-32769), 3);
    assert_eq!(width_of(8_388_608), 4);
    assert_eq!(width_of(i32::MIN as i64), 4);
    assert_eq!(width_of(1 << 31), 6);
    assert_eq!(width_of(-(1 << 47)), 6);
    assert_eq!(width_of(1 << 47), 8);
    assert_eq!(width_of(i64::MIN), 8);
    assert_eq!(write_signed(-2, 1), vec![0xfe]);
    assert_eq!(write_signed(-2, 3), vec![0xff, 0xff, 0xfe]);
    assert_eq!(write_signed(258, 2), vec![0x01, 0x02]);
    assert_eq!(write_signed(i64::MIN, 8), vec![0x80, 0, 0, 0, 0, 0, 0, 0]);
    assert_eq!(write_unsigned(0x0102, 4), vec![0, 0, 1, 2]);
    assert_eq!(write_unsigned(u64::MAX, 8), vec![0xff; 8]);
    assert_eq!(write_unsigned(7, 0), Vec::<u8>::new());
}

#[test]
fn values_are_stored_under_their_serial_types() {
    assert_eq!(encode_value(&Value::Null), (0, vec![]));
    assert_eq!(encode_value(&Value::I64(0)), (8, vec![]));
    assert_eq!(encode_value(&Value::I64(1)), (9, vec![]));
    assert_eq!(encode_value(&Value::I64(-1)), (1, vec![0xff]));
    assert_eq!(encode_value(&Value::I64(300)), (2, vec![0x01, 0x2c]));
    assert_eq!(encode_value(&Value::I64(1 << 40)), (5, vec![0x01, 0, 0, 0, 0, 0]));
    assert_eq!(encode_value(&Value::I64(1 << 56)), (6, vec![0x01, 0, 0, 0, 0, 0, 0, 0]));
    assert_eq!(encode_value(&Value::Float(1)), (7, vec![0, 0, 0, 0, 0, 0, 0, 1]));
    assert_eq!(encode_value(&Value::String("é".to_string())), (17, vec![0xc3, 0xa9]));
    assert_eq!(encode_value(&Value::Blob(vec![9, 8, 7])), (18, vec![9, 8, 7]));
    assert_eq!(header_length_of(0), 1);
    assert_eq!(header_length_of(126), 127);
    assert_eq!(header_length_of(127), 129);
}

#[test]
fn record_round_trip() {
    let mut values = vec![
        Value::Null,
        Value::Float(2.5f64.to_bits()),
        Value::Float(u64::MAX),
        Value::String(String::new()),
        Value::String("Granny Smith".to_string()),
        Value::String("日本語 and é".to_string()),
        Value::Blob(Vec::new()),
        Value::Blob(vec![0xff, 0x00, 0x80]),
        Value::Blob(vec![7; 300]),
        Value::String("x".repeat(200)),
    ];
    for shift in 0..63 {
        for n in [(1i64 << shift) - 1, 1i64 << shift, -(1i64 << shift), -(1i64 << shift) - 1] {
            values.push(Value::I64(n));
        }
    }
    values.push(Value::I64(i64::MIN));
    values.push(Value::I64(i64::MAX));
    let payload = write_record(&values);
    let record = Record::decode(&payload).unwrap();
    assert_eq!(values_of(&record), values);
    assert_eq!(record.header.fields.len(), values.len());
    // One value at a time, too.
    for value in &values {
        let single = vec![value.clone()];
        assert_eq!(values_of(&Record::decode(&write_record(&single)).unwrap()), single);
    }
    assert_eq!(write_record(&Vec::new()), vec![1]);
    assert_eq!(write_record(&vec![Value::I64(5), Value::String("a".to_string())]), vec![
        3, 1, 15, 5, b'a'
    ]);
}

#[test]
fn failures_seen_from_further_back() {
    assert_eq!(
        DbError::TruncatedPage { offset: 5 }.shifted(100),
        DbError::TruncatedPage { offset: 105 }
    );
    assert_eq!(
        DbError::MalformedVarint { offset: 0 }.shifted(7),
        DbError::MalformedVarint { offset: 7 }
    );
    assert_eq!(
        DbError::MalformedRecord { offset: 1 }.shifted(usize::MAX),
        DbError::MalformedRecord { offset: usize::MAX }
    );
    assert_eq!(
        DbError::UnknownPageType { offset: 100 }.shifted(0),
        DbError::UnknownPageType { offset: 100 }
    );
    assert_eq!(DbError::Io.shifted(9), DbError::Io);
    assert_eq!(DbError::UnknownTable.shifted(9), DbError::UnknownTable);
}

#[test]
fn header_is_read_without_the_body() {
    let (header, length) = RecordHeader::parse(&[0x03, 0x81, 0x01]).unwrap();
    assert_eq!(length, 3);
    assert_eq!(
        header.fields,
        vec![RecordField { field_size: 58, field_type: RecordFieldType::String }]
    );
    let (header, length) = RecordHeader::parse(&[0x02, 0x01]).unwrap();
    assert_eq!(length, 2);
    assert_eq!(header.fields, vec![RecordField { field_size: 1, field_type: RecordFieldType::I8 }]);
    // The record itself needs its body.
    assert_eq!(
        Record::decode(&[0x03, 0x81, 0x01]).err(),
        Some(DbError::MalformedRecord { offset: 3 })
    );
    assert_eq!(Record::decode(&[0x02, 0x01]).err(), Some(DbError::MalformedRecord { offset: 2 }));
    // A width that no payload can hold is still the width of the column.
    let mut huge = vec![10u8];
    huge.extend([0xff; 9]);
    let (header, _) = RecordHeader::parse(&huge).unwrap();
    assert_eq!(header.fields[0].field_size, (u64::MAX - 13) / 2);
    assert_eq!(Record::decode(&huge).err(), Some(DbError::MalformedRecord { offset: 10 }));
}
