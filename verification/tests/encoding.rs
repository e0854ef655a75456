use floe_executor::encoding::{
    concat_encoded_rows, decode_all_encoded_row_scalars, decode_all_encoded_row_scalars_into,
    decode_encoded_row_scalars_into, encoded_row_column_count, extract_encoded_row_columns,
    extract_encoded_row_columns_and_i64_like_column, extract_encoded_row_i64_like_column,
    extract_encoded_row_scalar, extract_encoded_row_scalars, EncodedRowScalar, EncodingError,
};

enum TestEncodedField<'a> {
    Null,
    Int64(i64),
    Int64Null,
    Utf8(&'a str),
    Utf8Null,
    TimestampMillis(i64),
    TimestampNull,
    Bool(bool),
    BoolNull,
}

fn encode_test_row(fields: &[TestEncodedField<'_>]) -> Vec<u8> {
    let count = u32::try_from(fields.len()).expect("field count fits u32");
    let mut encoded = Vec::new();
    encoded.extend_from_slice(&count.to_le_bytes());
    for field in fields {
        match field {
            TestEncodedField::Null => encoded.push(0x00),
            TestEncodedField::Int64(value) => {
                encoded.push(0x01);
                encoded.extend_from_slice(&value.to_le_bytes());
            }
            TestEncodedField::Int64Null => encoded.push(0x05),
            TestEncodedField::Utf8(value) => {
                encoded.push(0x02);
                let bytes = value.as_bytes();
                let len = u32::try_from(bytes.len()).expect("utf8 length fits u32");
                encoded.extend_from_slice(&len.to_le_bytes());
                encoded.extend_from_slice(bytes);
            }
            TestEncodedField::Utf8Null => encoded.push(0x06),
            TestEncodedField::TimestampMillis(value) => {
                encoded.push(0x03);
                encoded.extend_from_slice(&value.to_le_bytes());
            }
            TestEncodedField::TimestampNull => encoded.push(0x07),
            TestEncodedField::Bool(value) => {
                encoded.push(0x04);
                encoded.push(if *value { 1 } else { 0 });
            }
            TestEncodedField::BoolNull => encoded.push(0x08),
        }
    }
    encoded
}

fn decode_test_row(encoded: &[u8]) -> Vec<Option<EncodedRowScalar>> {
    let mut decoded = Vec::new();
    decode_all_encoded_row_scalars_into(encoded, &mut decoded).expect("decode");
    decoded
}

#[test]
fn encodes_simple_rows() {
    let encoded = encode_test_row(&[
        TestEncodedField::Int64(42),
        TestEncodedField::Utf8("abc"),
        TestEncodedField::Bool(true),
    ]);
    assert!(!encoded.is_empty());
}

#[test]
fn round_trips_rows() {
    let encoded = encode_test_row(&[
        TestEncodedField::Int64(10),
        TestEncodedField::Utf8("abc"),
        TestEncodedField::TimestampMillis(1234),
        TestEncodedField::Bool(false),
    ]);
    let decoded = decode_test_row(&encoded);
    assert_eq!(
        decoded,
        vec![
            Some(EncodedRowScalar::Int64(10)),
            Some(EncodedRowScalar::Utf8("abc".into())),
            Some(EncodedRowScalar::TimestampMillis(1234)),
            Some(EncodedRowScalar::Bool(false))
        ]
    );
}

#[test]
fn encodes_null_values() {
    let encoded = encode_test_row(&[TestEncodedField::Null, TestEncodedField::Int64Null]);
    let decoded = decode_test_row(&encoded);
    assert_eq!(decoded, vec![None, None]);
}

#[test]
fn extracts_selected_columns_without_full_decode() {
    let encoded = encode_test_row(&[
        TestEncodedField::Int64(10),
        TestEncodedField::Utf8("abc"),
        TestEncodedField::TimestampMillis(1234),
        TestEncodedField::Bool(false),
    ]);
    let selected = extract_encoded_row_columns(&encoded, &[3, 0], true)
        .expect("extract")
        .expect("non-null key");
    let decoded = decode_test_row(&selected);
    assert_eq!(
        decoded,
        vec![
            Some(EncodedRowScalar::Bool(false)),
            Some(EncodedRowScalar::Int64(10))
        ]
    );
}

#[test]
fn selecting_null_key_column_returns_none_when_non_null_required() {
    let encoded = encode_test_row(&[TestEncodedField::Int64Null, TestEncodedField::Utf8("abc")]);
    let selected =
        extract_encoded_row_columns(&encoded, &[0], true).expect("extract nullable key");
    assert!(selected.is_none());
}

#[test]
fn concatenates_encoded_rows_without_decode_reencode() {
    let left = encode_test_row(&[TestEncodedField::Int64(10), TestEncodedField::Utf8("left")]);
    let right = encode_test_row(&[
        TestEncodedField::Bool(true),
        TestEncodedField::TimestampMillis(55),
    ]);

    let combined = concat_encoded_rows(&left, &right).expect("concat");
    let decoded = decode_test_row(&combined);
    assert_eq!(
        decoded,
        vec![
            Some(EncodedRowScalar::Int64(10)),
            Some(EncodedRowScalar::Utf8("left".into())),
            Some(EncodedRowScalar::Bool(true)),
            Some(EncodedRowScalar::TimestampMillis(55)),
        ]
    );
}

#[test]
fn encodes_typed_null_variants() {
    let encoded = encode_test_row(&[
        TestEncodedField::Utf8Null,
        TestEncodedField::TimestampNull,
        TestEncodedField::BoolNull,
    ]);
    let decoded = decode_test_row(&encoded);
    assert_eq!(decoded, vec![None, None, None]);
}

#[test]
fn selecting_commutes_with_decoding() {
    let encoded = encode_test_row(&[
        TestEncodedField::Int64(7),
        TestEncodedField::Utf8("größe"),
        TestEncodedField::Null,
    ]);
    let selected = extract_encoded_row_columns(&encoded, &[2, 1, 1], false)
        .expect("extract")
        .expect("nulls are allowed");
    assert_eq!(
        decode_all_encoded_row_scalars(&selected),
        extract_encoded_row_scalars(&encoded, &[2, 1, 1])
    );
    assert_eq!(
        extract_encoded_row_scalar(&encoded, 1),
        Ok(Some(EncodedRowScalar::Utf8("größe".to_string())))
    );
}

#[test]
fn dates_and_decimals_are_read_in_full() {
    let mut encoded = vec![2, 0, 0, 0];
    encoded.push(0x09);
    encoded.extend_from_slice(&(-3_i32).to_le_bytes());
    encoded.push(0x0B);
    encoded.extend_from_slice(&(-170_141_183_460_469_231_731_i128).to_le_bytes());
    assert_eq!(
        decode_test_row(&encoded),
        vec![
            Some(EncodedRowScalar::DateDays(-3)),
            Some(EncodedRowScalar::Decimal128(-170_141_183_460_469_231_731)),
        ]
    );
}

#[test]
fn a_row_and_one_number_are_read_in_one_pass() {
    let encoded = encode_test_row(&[
        TestEncodedField::Int64(7),
        TestEncodedField::TimestampMillis(1234),
        TestEncodedField::Utf8("x"),
    ]);
    assert_eq!(
        extract_encoded_row_columns_and_i64_like_column(&encoded, &[2], 1, true),
        Ok(Some((encode_test_row(&[TestEncodedField::Utf8("x")]), 1234)))
    );
    assert_eq!(extract_encoded_row_i64_like_column(&encoded, 0), Ok(Some(7)));
    assert_eq!(
        extract_encoded_row_i64_like_column(&encoded, 2),
        Err(EncodingError::NotI64Like(2))
    );
}

#[test]
fn every_malformed_row_has_its_error() {
    let mut decoded = Vec::new();
    let mut outcome = |bytes: &[u8]| decode_all_encoded_row_scalars_into(bytes, &mut decoded);
    assert_eq!(outcome(&[1, 0, 0]), Err(EncodingError::RowTooShort));
    assert_eq!(outcome(&[1, 0, 0, 0]), Err(EncodingError::MissingTag));
    assert_eq!(outcome(&[1, 0, 0, 0, 0x7f]), Err(EncodingError::UnknownTag(0x7f)));
    assert_eq!(
        outcome(&[1, 0, 0, 0, 0x01, 1, 2, 3]),
        Err(EncodingError::TruncatedFixedWidth)
    );
    assert_eq!(
        outcome(&[1, 0, 0, 0, 0x02, 1, 0]),
        Err(EncodingError::TruncatedStringLength)
    );
    assert_eq!(
        outcome(&[1, 0, 0, 0, 0x02, 2, 0, 0, 0, b'a']),
        Err(EncodingError::TruncatedString)
    );
    assert_eq!(
        outcome(&[1, 0, 0, 0, 0x02, 1, 0, 0, 0, 0xff]),
        Err(EncodingError::InvalidUtf8)
    );
    assert_eq!(outcome(&[1, 0, 0, 0, 0x04]), Err(EncodingError::MissingBool));
    assert_eq!(
        outcome(&[1, 0, 0, 0, 0x09, 1]),
        Err(EncodingError::TruncatedDate)
    );
    assert_eq!(
        outcome(&[1, 0, 0, 0, 0x0B, 1]),
        Err(EncodingError::TruncatedDecimal)
    );
}

#[test]
fn a_missing_column_is_reported() {
    let encoded = encode_test_row(&[TestEncodedField::Int64(1)]);
    assert_eq!(encoded_row_column_count(&encoded), Ok(1));
    let mut decoded = Vec::new();
    assert_eq!(
        decode_encoded_row_scalars_into(&encoded, &[4], &mut decoded),
        Err(EncodingError::IndexOutOfBounds(1))
    );
    assert_eq!(
        extract_encoded_row_columns(&encoded, &[1], false),
        Err(EncodingError::IndexOutOfBounds(1))
    );
}

#[test]
fn more_columns_than_a_count_holds_cannot_be_joined() {
    let crowded = [0xff, 0xff, 0xff, 0xff];
    let single = encode_test_row(&[TestEncodedField::Null]);
    assert!(concat_encoded_rows(&crowded, &single).is_err());
}
