use floe_executor::arrow_builders::CellKind;
use floe_executor::columns::{Cell, Column};
use floe_executor::encoding::EncodedRowScalar;
use floe_executor::scalar_array_builder::{RowValue, ScalarBuilderError, ScalarColumnBuilder};
use floe_executor::values::{DataType, TimeUnit};

fn text(value: &str) -> Cell {
    Cell::Utf8(value.to_string())
}

#[test]
fn appends_row_values_and_finishes_typed_arrays() {
    let rows = vec![
        vec![
            RowValue::Int64(1),
            RowValue::Utf8("a".to_string()),
            RowValue::TimestampMillis(10),
            RowValue::Bool(true),
        ],
        vec![
            RowValue::Int64(2),
            RowValue::Utf8("b".to_string()),
            RowValue::TimestampMillis(20),
            RowValue::Bool(false),
        ],
    ];

    let mut ints = ScalarColumnBuilder::new(&DataType::Int64, rows.len()).expect("int builder");
    ints.append_row_values_column(&rows, 0)
        .expect("append int rows");
    let ints = ints.finish_array();
    assert_eq!(ints.data_type, DataType::Int64);
    assert_eq!(ints.cells, vec![Cell::Int64(1), Cell::Int64(2)]);

    let mut utf8 = ScalarColumnBuilder::new(&DataType::Utf8, rows.len()).expect("utf8 builder");
    utf8.append_row_values_column(&rows, 1)
        .expect("append utf8 rows");
    let utf8 = utf8.finish_array();
    assert_eq!(utf8.data_type, DataType::Utf8);
    assert_eq!(utf8.cells[0], text("a"));
    assert_eq!(utf8.cells[1], text("b"));

    let ts_type = DataType::Timestamp(TimeUnit::Millisecond, None);
    let mut ts = ScalarColumnBuilder::new(&ts_type, rows.len()).expect("timestamp builder");
    ts.append_row_values_column(&rows, 2)
        .expect("append timestamp rows");
    let ts = ts.finish_array();
    assert_eq!(ts.data_type, ts_type);
    assert_eq!(ts.cells[0], Cell::TimestampMillis(10));
    assert_eq!(ts.cells[1], Cell::TimestampMillis(20));

    let mut bools = ScalarColumnBuilder::new(&DataType::Boolean, rows.len()).expect("bool builder");
    bools
        .append_row_values_column(&rows, 3)
        .expect("append bool rows");
    let bools = bools.finish_array();
    assert_eq!(bools.data_type, DataType::Boolean);
    assert_eq!(bools.cells[0], Cell::Bool(true));
    assert_eq!(bools.cells[1], Cell::Bool(false));
}

#[test]
fn append_encoded_scalar_supports_nulls_and_type_checks() {
    let mut ints = ScalarColumnBuilder::new(&DataType::Int64, 3).expect("int builder");
    ints.append_encoded_scalar(Some(&EncodedRowScalar::Int64(7)))
        .expect("append int");
    ints.append_encoded_scalar(None).expect("append null");
    let err = ints
        .append_encoded_scalar(Some(&EncodedRowScalar::Utf8("x".to_string())))
        .unwrap_err();
    assert!(err.message().contains("expected Int64 encoded scalar"));

    let ints = ints.finish_array();
    assert_eq!(ints.data_type, DataType::Int64);
    assert_eq!(ints.cells.len(), 2);
    assert_eq!(ints.cells[0], Cell::Int64(7));
    assert_eq!(ints.cells[1], Cell::Null);

    let mut nulls = ScalarColumnBuilder::new(&DataType::Null, 0).expect("null builder");
    nulls.append_encoded_scalar(None).expect("append null row");
    let err = nulls
        .append_encoded_scalar(Some(&EncodedRowScalar::Bool(true)))
        .unwrap_err();
    assert!(err.message().contains("expected NULL encoded scalar"));
    let nulls = nulls.finish_array();
    assert_eq!(nulls.data_type, DataType::Null);
    assert_eq!(nulls.cells.len(), 1);
}

#[test]
fn repeated_and_specialized_appenders_work() {
    let mut bools = ScalarColumnBuilder::new(&DataType::Boolean, 4).expect("bool builder");
    bools
        .append_encoded_scalar_repeated(Some(&EncodedRowScalar::Bool(true)), 2)
        .expect("append repeated bool");
    bools
        .append_encoded_scalar_repeated(None, 2)
        .expect("append repeated null bool");
    let bools = bools.finish_array();
    assert_eq!(bools.cells.len(), 4);
    assert_eq!(bools.cells[0], Cell::Bool(true));
    assert_eq!(bools.cells[1], Cell::Bool(true));
    assert_eq!(bools.cells[2], Cell::Null);
    assert_eq!(bools.cells[3], Cell::Null);

    let mut binary = ScalarColumnBuilder::new(&DataType::Binary, 2).expect("binary builder");
    binary
        .append_binary_value(&vec![1_u8, 2_u8])
        .expect("append binary");
    binary
        .append_encoded_scalar(None)
        .expect("append binary null");
    let binary = binary.finish_array();
    assert_eq!(binary.cells[0], Cell::Binary(vec![1_u8, 2_u8]));
    assert_eq!(binary.cells[1], Cell::Null);

    let mut u64s = ScalarColumnBuilder::new(&DataType::UInt64, 2).expect("u64 builder");
    u64s.append_u64_value(9).expect("append u64");
    let err = u64s.append_i64_value(1).unwrap_err();
    assert!(err.message().contains("expected Int64 column builder"));
    u64s.append_encoded_scalar(None).expect("append u64 null");
    let u64s = u64s.finish_array();
    assert_eq!(u64s.cells[0], Cell::UInt64(9));
    assert_eq!(u64s.cells[1], Cell::Null);
}

fn encoded(data_type: DataType, scalars: Vec<Option<EncodedRowScalar>>) -> Column {
    let mut builder = ScalarColumnBuilder::new(&data_type, scalars.len()).expect("builder");
    for scalar in &scalars {
        builder.append_encoded_scalar(scalar.as_ref()).expect("append");
    }
    builder.finish_array()
}

#[test]
fn dates_decimals_texts_and_times_are_kept() {
    let dates = encoded(
        DataType::Date32,
        vec![Some(EncodedRowScalar::DateDays(-2)), None],
    );
    assert_eq!(dates.cells, vec![Cell::DateDays(-2), Cell::Null]);
    let decimals = encoded(
        DataType::Decimal128(10, 2),
        vec![Some(EncodedRowScalar::Decimal128(1234)), None],
    );
    assert_eq!(decimals.data_type, DataType::Decimal128(10, 2));
    assert_eq!(decimals.cells, vec![Cell::Decimal128(1234), Cell::Null]);
    let texts = encoded(
        DataType::Utf8,
        vec![Some(EncodedRowScalar::Utf8("ü".to_string())), None],
    );
    assert_eq!(texts.cells, vec![text("ü"), Cell::Null]);
    let times = encoded(
        DataType::Timestamp(TimeUnit::Millisecond, None),
        vec![Some(EncodedRowScalar::TimestampMillis(5)), None],
    );
    assert_eq!(times.cells, vec![Cell::TimestampMillis(5), Cell::Null]);
}

#[test]
fn a_finished_builder_starts_anew() {
    let mut ints = ScalarColumnBuilder::new(&DataType::Int64, 1).expect("int builder");
    ints.append_i64_value(1).expect("append");
    assert_eq!(ints.finish_array().cells, vec![Cell::Int64(1)]);
    ints.append_i64_value(2).expect("append");
    assert_eq!(ints.finish_array().cells, vec![Cell::Int64(2)]);
}

#[test]
fn every_refused_value_has_its_error() {
    assert_eq!(
        ScalarColumnBuilder::new(&DataType::Float32, 1).err(),
        Some(ScalarBuilderError::UnsupportedType)
    );
    let mut ints = ScalarColumnBuilder::new(&DataType::Int64, 1).expect("int builder");
    assert_eq!(
        ints.append_row_values_column(&vec![vec![RowValue::Bool(true)]], 0),
        Err(ScalarBuilderError::ExpectedRowValue(CellKind::Int64))
    );
    assert_eq!(
        ints.append_row_values_column(&vec![vec![]], 3),
        Err(ScalarBuilderError::MissingColumn(CellKind::Int64, 3))
    );
    assert_eq!(
        ints.append_u64_value(1),
        Err(ScalarBuilderError::ExpectedBuilder(CellKind::UInt64))
    );
    let mut binary = ScalarColumnBuilder::new(&DataType::Binary, 1).expect("binary builder");
    assert!(matches!(
        binary.append_row_values_column(&vec![vec![RowValue::Bool(true)]], 0),
        Err(ScalarBuilderError::NotFromRows(_))
    ));
    assert!(matches!(
        binary.append_encoded_scalar(Some(&EncodedRowScalar::Bool(true))),
        Err(ScalarBuilderError::NotFromEncoded(_))
    ));
}
