use floe_executor::columns::{BatchError, Cell};
use floe_executor::name_map::NameMap;
use floe_executor::source_decoder::{
    execution_batch_for_required_columns, AppendIngestEvent, JsonEnd, JsonFields, JsonNumber,
    JsonValue, Payload, SourceArrowBatchBuilder, SourceArrowBatchMode, SourceColumn,
    SourceDataType, SourceDefinition, SourceError,
};
use floe_executor::values::{DataType, TimeUnit};

fn column(name: &str, data_type: SourceDataType, nullable: bool) -> SourceColumn {
    SourceColumn { name: name.to_string(), data_type, nullable }
}

fn bid() -> SourceDefinition {
    SourceDefinition {
        name: "bid".to_string(),
        columns: vec![
            column("auction", SourceDataType::Int64, false),
            column("channel", SourceDataType::Utf8, true),
            column("date_time", SourceDataType::TimestampMillis, false),
        ],
    }
}

fn number(value: i64) -> JsonValue {
    JsonValue::Number(JsonNumber { integer: Some(value), text: value.to_string() })
}

fn text(value: &str) -> JsonValue {
    JsonValue::Text(value.to_string())
}

fn event(source: &str, fields: Vec<(&str, JsonValue)>) -> AppendIngestEvent {
    let mut object = NameMap::new();
    for (name, value) in fields {
        object.insert(name.to_string(), value);
    }
    AppendIngestEvent { source: source.to_string(), payload: Some(Payload::Object(object)) }
}

fn none(count: usize) -> Vec<Option<i128>> {
    vec![None; count]
}

#[test]
fn events_become_columns() {
    let mut builder = SourceArrowBatchBuilder::new(bid(), 2);
    assert!(builder.is_empty());
    let first = event(
        "bid",
        vec![
            ("date_time", number(1000)),
            ("auction", number(7)),
            ("channel", text("web")),
        ],
    );
    assert_eq!(builder.append_event(&first, &none(3)), Ok(Some(1000)));
    let second = event(
        "bid",
        vec![
            ("date_time", number(2000)),
            ("auction", number(8)),
            ("channel", JsonValue::Null),
        ],
    );
    assert_eq!(builder.append_event(&second, &none(3)), Ok(Some(2000)));
    assert!(!builder.is_empty());
    let batches = builder.finish().expect("finish").expect("rows");
    let execution = batches.execution();
    assert_eq!(execution.rows, 2);
    assert_eq!(
        execution.columns[0].cells,
        vec![Cell::Int64(7), Cell::Int64(8)]
    );
    assert_eq!(
        execution.columns[1].cells,
        vec![Cell::Utf8("web".to_string()), Cell::Null]
    );
    assert_eq!(
        execution.columns[2].cells,
        vec![Cell::TimestampMillis(1000), Cell::TimestampMillis(2000)]
    );
    assert_eq!(batches.query().expect("query batch").rows, 2);
    assert!(builder.is_empty());
    assert!(builder.finish().expect("finish").is_none());
}

#[test]
fn payloads_are_read_field_by_field() {
    let mut builder = SourceArrowBatchBuilder::new(bid(), 1);
    let fields = JsonFields {
        fields: vec![
            ("channel".to_string(), text("app")),
            ("unknown".to_string(), JsonValue::Other),
            ("auction".to_string(), number(3)),
            ("date_time".to_string(), number(5)),
        ],
        end: JsonEnd::Complete,
    };
    assert_eq!(
        builder.append_json_payload("bid", &Some(fields), &none(4)),
        Ok(Some(5))
    );
    let (execution, query) = builder.finish().expect("finish").expect("rows").into_parts();
    assert_eq!(execution.rows, 1);
    assert!(query.is_some());
    assert_eq!(
        builder.append_json_payload("bid", &None, &none(0)),
        Err(SourceError::NotObject)
    );
    let broken = JsonFields { fields: vec![], end: JsonEnd::Broken };
    assert_eq!(
        builder.append_json_payload("bid", &Some(broken), &none(0)),
        Err(SourceError::Malformed)
    );
}

#[test]
fn columns_that_are_not_required_hold_one_value() {
    let mut builder = SourceArrowBatchBuilder::new_with_execution_required_columns(
        bid(),
        1,
        Some(vec![true, false, false]),
    );
    let given = event(
        "bid",
        vec![
            ("date_time", number(1000)),
            ("auction", number(7)),
            ("channel", text("web")),
        ],
    );
    builder.append_event(&given, &none(3)).expect("event");
    let batches = builder.finish().expect("finish").expect("rows");
    assert_eq!(batches.execution().columns[0].cells, vec![Cell::Int64(7)]);
    assert_eq!(batches.execution().columns[1].cells, vec![Cell::Null]);
    assert_ne!(
        batches.execution().columns[2].cells,
        vec![Cell::TimestampMillis(1000)]
    );
    let query = batches.query().expect("query batch");
    assert_eq!(query.columns[1].cells, vec![Cell::Utf8("web".to_string())]);
    let masked =
        execution_batch_for_required_columns(&bid(), query, &Some(vec![true, false, false]))
            .expect("mask");
    for (mine, theirs) in masked.columns.iter().zip(&batches.execution().columns) {
        assert_eq!(mine.cells, theirs.cells);
    }
    let other = SourceDefinition { name: "bid".to_string(), columns: vec![] };
    assert_eq!(
        execution_batch_for_required_columns(&other, query, &Some(vec![false])).err(),
        Some(SourceError::SchemaMismatch)
    );
}

#[test]
fn batches_for_execution_only_have_no_query_part() {
    let mut builder =
        SourceArrowBatchBuilder::new_with_execution_required_columns_and_batch_mode(
            bid(),
            1,
            None,
            SourceArrowBatchMode::ExecutionOnly,
        );
    assert_eq!(
        builder.finish_query_batch().err(),
        Some(SourceError::NoQueryBatches)
    );
    let given = event(
        "bid",
        vec![
            ("date_time", number(1000)),
            ("auction", number(7)),
            ("channel", text("web")),
        ],
    );
    builder.append_event(&given, &none(3)).expect("event");
    let batches = builder.finish().expect("finish").expect("rows");
    assert!(batches.query().is_none());
    assert_eq!(batches.execution().rows, 1);
    assert!(SourceArrowBatchMode::ExecutionAndQuery.includes_query_batch());
}

#[test]
fn schemas_follow_the_source_types() {
    let definition = SourceDefinition {
        name: "all".to_string(),
        columns: vec![
            column("a", SourceDataType::Bool, true),
            column("b", SourceDataType::DateDays, true),
            column("c", SourceDataType::Decimal128(10, 2), true),
            column("d", SourceDataType::TimestampMillis, true),
        ],
    };
    let schema = definition.to_arrow_schema();
    assert_eq!(schema[0].data_type, DataType::Boolean);
    assert_eq!(schema[1].data_type, DataType::Date32);
    assert_eq!(schema[2].data_type, DataType::Decimal128(10, 2));
    assert_eq!(
        schema[3].data_type,
        DataType::Timestamp(TimeUnit::Millisecond, None)
    );
    let mut builder = SourceArrowBatchBuilder::new(definition, 1);
    let given = event(
        "all",
        vec![
            ("a", JsonValue::Bool(true)),
            ("b", number(3)),
            ("c", text("1.50")),
            ("d", number(-5)),
        ],
    );
    assert_eq!(
        builder.append_event(&given, &vec![None, None, Some(150), None]),
        Ok(None)
    );
    let batches = builder.finish().expect("finish").expect("rows");
    assert_eq!(
        batches.execution().columns[2].cells,
        vec![Cell::Decimal128(150)]
    );
}

fn refuse(data_type: SourceDataType, value: JsonValue) -> SourceError {
    let definition = SourceDefinition {
        name: "one".to_string(),
        columns: vec![column("a", data_type, false)],
    };
    SourceArrowBatchBuilder::new(definition, 1)
        .append_event(&event("one", vec![("a", value)]), &none(1))
        .expect_err("refused")
}

#[test]
fn every_refused_field_has_its_error() {
    assert_eq!(refuse(SourceDataType::Int64, text("x")), SourceError::ExpectedInteger(0));
    assert_eq!(refuse(SourceDataType::Bool, number(1)), SourceError::ExpectedBoolean(0));
    assert_eq!(refuse(SourceDataType::Utf8, number(1)), SourceError::ExpectedString(0));
    assert_eq!(
        refuse(SourceDataType::TimestampMillis, text("x")),
        SourceError::ExpectedTimestamp(0)
    );
    assert_eq!(
        refuse(SourceDataType::DateDays, JsonValue::Bool(true)),
        SourceError::ExpectedDate(0)
    );
    assert_eq!(
        refuse(SourceDataType::DateDays, number(1 << 40)),
        SourceError::DateOutOfRange(0)
    );
    assert_eq!(
        refuse(SourceDataType::Decimal128(10, 2), JsonValue::Bool(true)),
        SourceError::ExpectedDecimal(0)
    );
    assert_eq!(
        refuse(SourceDataType::Decimal128(10, 2), text("x")),
        SourceError::InvalidDecimal(0)
    );
    assert_eq!(
        refuse(SourceDataType::Numeric, JsonValue::Bool(true)),
        SourceError::ExpectedNumeric(0)
    );
    assert_eq!(
        refuse(SourceDataType::Int64, JsonValue::Null),
        SourceError::NullViolation(0)
    );
}

#[test]
fn events_of_the_wrong_shape_are_refused() {
    let mut builder = SourceArrowBatchBuilder::new(bid(), 1);
    assert_eq!(
        builder.append_event(&event("person", vec![]), &none(3)),
        Err(SourceError::SourceMismatch)
    );
    let missing = AppendIngestEvent { source: "bid".to_string(), payload: None };
    assert_eq!(
        builder.append_event(&missing, &none(3)),
        Err(SourceError::PayloadMissing)
    );
    let other =
        AppendIngestEvent { source: "bid".to_string(), payload: Some(Payload::Other) };
    assert_eq!(
        builder.append_event(&other, &none(3)),
        Err(SourceError::NotObject)
    );
    assert_eq!(
        builder.append_event(&event("bid", vec![]), &none(3)),
        Err(SourceError::MissingField(0))
    );
}

#[test]
fn a_payload_with_a_repeated_name_leaves_the_columns_uneven() {
    let mut builder = SourceArrowBatchBuilder::new(bid(), 1);
    let fields = JsonFields {
        fields: vec![
            ("channel".to_string(), text("app")),
            ("auction".to_string(), number(3)),
            ("auction".to_string(), number(4)),
            ("date_time".to_string(), number(5)),
        ],
        end: JsonEnd::Complete,
    };
    assert_eq!(
        builder.append_json_payload("bid", &Some(fields), &none(4)),
        Ok(Some(5))
    );
    assert_eq!(
        builder.finish().err(),
        Some(SourceError::Batch(BatchError::UnequalLengths))
    );
}

#[test]
fn text_behind_a_payload_is_refused() {
    let mut builder = SourceArrowBatchBuilder::new(bid(), 1);
    let fields = JsonFields {
        fields: vec![
            ("channel".to_string(), text("app")),
            ("auction".to_string(), number(3)),
            ("date_time".to_string(), number(5)),
        ],
        end: JsonEnd::Trailing,
    };
    assert_eq!(
        builder.append_json_payload("bid", &Some(fields), &none(3)),
        Err(SourceError::TrailingData)
    );
}
