use bytes::BytesMut;
use floe_executor::columns::{Cell, Column, ColumnBatch, Field};
use floe_executor::pgwire::cells::{cell_text, row_texts, CellError};
use floe_executor::pgwire::cursor::{CursorError, MessageCursor};
use floe_executor::pgwire::encode::{encode_tail_batch, encode_tail_rows};
use floe_executor::pgwire::messages::{
    maybe_append_mv_version, pg_type_from_arrow, push_authentication_ok, push_backend_key_data,
    push_bind_complete, push_close_complete, push_command_complete, push_data_row,
    push_error_response, push_no_data, push_parameter_description, push_parameter_status,
    push_parse_complete, push_portal_suspended, push_ready_for_query, push_row_description,
    BOOL_OID, FLOAT8_OID, INT8_OID, TEXT_OID, TIMESTAMPTZ_OID,
};
use floe_executor::pgwire::rows::{
    to_query_result, PgwireServerConfig, RowProgress, TailAction, TailEvent, TailProgress,
    TailStreamOutcome,
};
use floe_executor::pgwire::session::TailPortalState;
use floe_executor::pgwire::startup::{
    backend_key, dispatch_message, parse_startup_parameters, push_startup_responses,
    read_message_header, read_startup_message, startup_body_length, RequestKind, StartupError,
    StartupStep,
};
use floe_executor::values::{DataType, TimeUnit};
use postgres_protocol::message::backend::READY_FOR_QUERY_TAG;
use postgres_types::Type;

fn field(name: &str, data_type: DataType) -> Field {
    Field { name: name.to_string(), data_type, nullable: true }
}

fn column(data_type: DataType, cells: Vec<Cell>) -> Column {
    Column { data_type, cells }
}

fn batch(columns: Vec<Column>) -> ColumnBatch {
    let schema = columns
        .iter()
        .map(|column| field("value", column.data_type.clone()))
        .collect();
    ColumnBatch::try_new(schema, columns).expect("batch")
}

fn numbers(values: &[i64]) -> ColumnBatch {
    let cells = values.iter().map(|value| Cell::Int64(*value)).collect();
    batch(vec![column(DataType::Int64, cells)])
}

fn text(value: &str) -> Cell {
    Cell::Utf8(value.to_string())
}

#[test]
fn query_result_wraps_batches() {
    let schema = vec![field("id", DataType::Int64)];
    let batch = ColumnBatch::try_new(
        schema,
        vec![Column {
            data_type: DataType::Int64,
            cells: vec![Cell::Int64(1), Cell::Int64(2)],
        }],
    )
    .expect("batch");
    let result = to_query_result(vec![batch]);
    assert_eq!(result.schema.len(), 1);
    assert_eq!(result.batches.len(), 1);
    assert_eq!(to_query_result(Vec::new()).schema.len(), 0);
}

#[test]
fn ready_for_query_encoding_matches_protocol() {
    let mut buf = BytesMut::new();
    push_ready_for_query(&mut buf, b'I');
    assert_eq!(buf.len(), 6);
    assert_eq!(buf[0], READY_FOR_QUERY_TAG);
    assert_eq!(&buf[1..5], &5i32.to_be_bytes());
    assert_eq!(buf[5], b'I');
}

#[test]
fn parses_startup_parameters() {
    let params = parse_startup_parameters(b"user\0floe\0database\0postgres\0\0").expect("params");
    assert_eq!(params.get("user").unwrap(), "floe");
    assert_eq!(params.get("database").unwrap(), "postgres");
}

#[test]
fn parameter_description_defaults_to_text() {
    let mut buf = BytesMut::new();
    push_parameter_description(&mut buf, &vec![0, Type::INT4.oid()]);
    assert_eq!(buf[0], b't');
    let count = i16::from_be_bytes([buf[5], buf[6]]);
    assert_eq!(count, 2);
    let first = u32::from_be_bytes([buf[7], buf[8], buf[9], buf[10]]);
    let second = u32::from_be_bytes([buf[11], buf[12], buf[13], buf[14]]);
    assert_eq!(first, Type::TEXT.oid());
    assert_eq!(second, Type::INT4.oid());
}

#[test]
fn arrow_types_map_to_pg() {
    assert_eq!(pg_type_from_arrow(&DataType::Int64), (Type::INT8.oid(), 8));
    assert_eq!(pg_type_from_arrow(&DataType::Utf8), (Type::TEXT.oid(), -1));
    let ts = DataType::Timestamp(TimeUnit::Microsecond, None);
    assert_eq!(pg_type_from_arrow(&ts), (Type::TIMESTAMPTZ.oid(), 8));
}

#[test]
fn type_identifiers_are_those_of_the_protocol() {
    assert_eq!(INT8_OID, Type::INT8.oid());
    assert_eq!(FLOAT8_OID, Type::FLOAT8.oid());
    assert_eq!(TEXT_OID, Type::TEXT.oid());
    assert_eq!(BOOL_OID, Type::BOOL.oid());
    assert_eq!(TIMESTAMPTZ_OID, Type::TIMESTAMPTZ.oid());
}

#[test]
fn encodes_tail_row_with_metadata() {
    let mut buf = BytesMut::new();
    encode_tail_batch(&mut buf, &numbers(&[5]), 42).expect("encode batch");

    let data = buf.freeze();
    assert_eq!(data[0], b'D');
    let field_count = i16::from_be_bytes([data[5], data[6]]);
    assert_eq!(field_count, 4);

    let mut idx = 7;
    let read_text = |buffer: &[u8], index: &mut usize| -> Option<String> {
        let len = i32::from_be_bytes([
            buffer[*index],
            buffer[*index + 1],
            buffer[*index + 2],
            buffer[*index + 3],
        ]);
        *index += 4;
        if len == -1 {
            return None;
        }
        let len = len as usize;
        let value = std::str::from_utf8(&buffer[*index..*index + len])
            .expect("utf8 value")
            .to_string();
        *index += len;
        Some(value)
    };

    let v = read_text(&data, &mut idx).expect("version value");
    assert_eq!(v, "42");
    let op = read_text(&data, &mut idx).expect("op value");
    assert_eq!(op, "1");
    let time = read_text(&data, &mut idx);
    assert!(time.is_none(), "__time should be NULL");
    let user = read_text(&data, &mut idx).expect("user column");
    assert_eq!(user, "5");
    assert_eq!(idx, data.len());
}

#[test]
fn tail_rows_are_encoded_from_a_position_on() {
    let mut part = BytesMut::new();
    encode_tail_rows(&mut part, &numbers(&[1, 2, 3]), 1, 2, -3).expect("encode rows");
    let mut single = BytesMut::new();
    encode_tail_batch(&mut single, &numbers(&[2]), -3).expect("encode batch");
    assert_eq!(part, single);
}

#[test]
fn bare_messages_hold_their_length_only() {
    let message = |push: fn(&mut BytesMut)| {
        let mut buf = BytesMut::new();
        push(&mut buf);
        buf.to_vec()
    };
    assert_eq!(message(push_bind_complete), b"2\0\0\0\x04");
    assert_eq!(message(push_close_complete), b"3\0\0\0\x04");
    assert_eq!(message(push_parse_complete), b"1\0\0\0\x04");
    assert_eq!(message(push_no_data), b"n\0\0\0\x04");
    assert_eq!(message(push_portal_suspended), b"s\0\0\0\x04");
    assert_eq!(message(push_authentication_ok), b"R\0\0\0\x08\0\0\0\0");
}

#[test]
fn messages_with_texts_end_them_with_a_zero() {
    let mut buf = BytesMut::new();
    push_command_complete(&mut buf, 12);
    assert_eq!(&buf[..], b"C\0\0\0\x0eSELECT 12\0");
    buf.clear();
    push_parameter_status(&mut buf, "a", "bc");
    assert_eq!(&buf[..], b"S\0\0\0\x09a\0bc\0");
    buf.clear();
    push_backend_key_data(&mut buf, 1, -1);
    assert_eq!(&buf[..], b"K\0\0\0\x0c\0\0\0\x01\xff\xff\xff\xff");
    buf.clear();
    push_error_response(&mut buf, "ERROR", "XX000", "no", "why");
    assert_eq!(
        &buf[..],
        b"E\0\0\0\x1cSERROR\0CXX000\0Mno\0Dwhy\0\0".as_slice()
    );
}

#[test]
fn data_rows_hold_lengths_and_texts() {
    let mut buf = BytesMut::new();
    let row = batch(vec![
        column(DataType::Utf8, vec![text("ab")]),
        column(DataType::Utf8, vec![Cell::Null]),
    ]);
    push_data_row(&mut buf, &row, 0, Some(Some(7))).expect("row");
    assert_eq!(
        &buf[..],
        b"D\0\0\0\x15\0\x03\0\0\0\x02ab\xff\xff\xff\xff\0\0\0\x017".as_slice()
    );
    buf.clear();
    push_data_row(&mut buf, &numbers(&[-1]), 0, None).expect("row");
    assert_eq!(&buf[..], b"D\0\0\0\x0c\0\x01\0\0\0\x02-1".as_slice());
}

#[test]
fn a_row_description_names_columns_and_types() {
    let mut buf = BytesMut::new();
    push_row_description(&mut buf, &vec![field("id", DataType::Int64)]);
    assert_eq!(buf[0], b'T');
    assert_eq!(i16::from_be_bytes([buf[5], buf[6]]), 1);
    assert_eq!(&buf[7..10], b"id\0");
    let oid = u32::from_be_bytes([buf[16], buf[17], buf[18], buf[19]]);
    assert_eq!(oid, Type::INT8.oid());
    let with_version = maybe_append_mv_version(&vec![field("id", DataType::Int64)], false);
    assert_eq!(with_version.len(), 2);
    assert_eq!(with_version[1].name, "__mv_version");
    assert_eq!(
        maybe_append_mv_version(&vec![field("id", DataType::Int64)], true).len(),
        1
    );
}

#[test]
fn a_startup_message_declines_encryption_or_starts() {
    let version = |number: i32| number.to_be_bytes().to_vec();
    assert_eq!(startup_body_length(&[0, 0, 0, 8]), Ok(4));
    assert_eq!(
        startup_body_length(&[0, 0, 0, 3]),
        Err(StartupError::InvalidLength(3))
    );
    assert!(matches!(
        read_startup_message(&version(80877103)),
        Ok(StartupStep::DeclineEncryption)
    ));
    assert_eq!(
        read_startup_message(&version(80877102)).err(),
        Some(StartupError::CancelUnsupported)
    );
    assert_eq!(
        read_startup_message(&version(5)).err(),
        Some(StartupError::UnsupportedProtocol(5))
    );
    let mut body = version(196608);
    body.extend_from_slice(b"user\0floe\0\0");
    match read_startup_message(&body) {
        Ok(StartupStep::Start(params)) => assert_eq!(params.get("user").unwrap(), "floe"),
        _ => panic!("expected a start"),
    }
    assert_eq!(
        parse_startup_parameters(b"\xff\0x\0\0").err(),
        Some(StartupError::KeyNotUtf8)
    );
    assert_eq!(
        parse_startup_parameters(b"x\0\xff\0\0").err(),
        Some(StartupError::ValueNotUtf8)
    );
}

#[test]
fn startup_is_answered_in_full() {
    let mut buf = BytesMut::new();
    push_startup_responses(&mut buf, 3, 4);
    assert_eq!(buf[0], b'R');
    assert_eq!(buf[buf.len() - 6], READY_FOR_QUERY_TAG);
    let (process_id, secret_key) = backend_key(u32::MAX, 7);
    assert!(process_id >= 0);
    assert_eq!(secret_key, 7);
}

#[test]
fn requests_are_told_apart_by_their_tags() {
    assert_eq!(dispatch_message(b'P'), RequestKind::Parse);
    assert_eq!(dispatch_message(b'B'), RequestKind::Bind);
    assert_eq!(dispatch_message(b'D'), RequestKind::Describe);
    assert_eq!(dispatch_message(b'E'), RequestKind::Execute);
    assert_eq!(dispatch_message(b'C'), RequestKind::Close);
    assert_eq!(dispatch_message(b'S'), RequestKind::Sync);
    assert_eq!(dispatch_message(b'H'), RequestKind::Flush);
    assert_eq!(dispatch_message(b'X'), RequestKind::Terminate);
    assert_eq!(dispatch_message(b'?'), RequestKind::Ignored);
    assert_eq!(read_message_header(b"P\0\0\0\x09"), Ok((b'P', 5)));
    assert_eq!(read_message_header(b"P\0\0\0\x03"), Err(3));
}

#[test]
fn a_cursor_reads_what_is_there() {
    let mut cursor = MessageCursor::new(b"\x07\xff\xfe\0\0\x01\0ab\0\xff");
    assert_eq!(cursor.read_u8(), Ok(7));
    assert_eq!(cursor.read_i16(), Ok(-2));
    assert_eq!(cursor.read_u32(), Ok(256));
    assert_eq!(cursor.read_cstr_owned(), Ok("ab".to_string()));
    assert_eq!(cursor.read_i32(), Err(CursorError::UnexpectedEnd));
    assert_eq!(
        MessageCursor::new(b"ab").read_cstr_owned(),
        Err(CursorError::Unterminated)
    );
    assert_eq!(
        MessageCursor::new(b"\xff\0").read_cstr_owned(),
        Err(CursorError::InvalidUtf8)
    );
}

#[test]
fn rows_stop_at_the_limit_and_are_flushed_in_parts() {
    let config = PgwireServerConfig::default().with_data_row_flush_limit(2);
    let mut progress = RowProgress::new(Some(3), config.data_row_flush_limit(), Some(9));
    let mut buf = BytesMut::new();
    let mut flushes = 0;
    let mut pushed = 0;
    loop {
        let step = progress.push_row(&numbers(&[1]), 0, &mut buf).expect("row");
        pushed += 1;
        if step.flush {
            flushes += 1;
        }
        if step.stop {
            break;
        }
    }
    assert_eq!(pushed, 3);
    assert_eq!(flushes, 1);
    assert_eq!(progress.total_rows, 3);
    assert!(progress.has_rows_left());
}

#[test]
fn a_tail_goes_on_where_it_was_suspended() {
    let mut state = TailPortalState {
        stream: (),
        schema: vec![field("value", DataType::Int64)],
        current_batch: None,
        finished: false,
    };
    let mut buf = BytesMut::new();
    let mut progress = TailProgress::new(Some(2), 8);
    assert_eq!(progress.advance(&mut state, &mut buf), Ok(TailAction::Fetch));
    assert_eq!(
        progress.deliver(&mut state, TailEvent::Batch(numbers(&[1, 2, 3]), 5)),
        TailAction::Proceed
    );
    let mut action = progress.advance(&mut state, &mut buf).expect("step");
    while action == TailAction::Proceed || action == TailAction::Flush {
        action = progress.advance(&mut state, &mut buf).expect("step");
    }
    assert_eq!(
        action,
        TailAction::Finish(TailStreamOutcome::Suspended { rows: 2 })
    );
    let mut progress = TailProgress::new(None, 8);
    let mut action = progress.advance(&mut state, &mut buf).expect("step");
    while action == TailAction::Proceed || action == TailAction::Flush {
        action = progress.advance(&mut state, &mut buf).expect("step");
    }
    assert_eq!(action, TailAction::Fetch);
    assert_eq!(
        progress.deliver(&mut state, TailEvent::Canceled),
        TailAction::Finish(TailStreamOutcome::Canceled { rows: 1 })
    );
    assert_eq!(
        progress.deliver(&mut state, TailEvent::Ended),
        TailAction::Proceed
    );
    assert_eq!(
        progress.advance(&mut state, &mut buf),
        Ok(TailAction::Finish(TailStreamOutcome::Completed { rows: 1 }))
    );
}

#[test]
fn cells_are_sent_as_arrow_shows_them() {
    let shown = |cell: Cell, data_type: DataType| {
        cell_text(&cell, &data_type)
            .expect("shown")
            .expect("not null")
    };
    assert_eq!(shown(Cell::Bool(true), DataType::Boolean), "true");
    assert_eq!(shown(Cell::Bool(false), DataType::Boolean), "false");
    assert_eq!(shown(Cell::Int64(i64::MIN), DataType::Int64), i64::MIN.to_string());
    assert_eq!(shown(Cell::UInt64(u64::MAX), DataType::UInt64), u64::MAX.to_string());
    assert_eq!(shown(text("a'b"), DataType::Utf8), "a'b");
    assert_eq!(
        shown(Cell::Binary(vec![0, 0xab, 9]), DataType::Binary),
        "00ab09"
    );
    assert_eq!(shown(Cell::DateDays(1), DataType::Date32), "1970-01-02");
    assert_eq!(
        shown(Cell::Decimal128(-1234), DataType::Decimal128(10, 2)),
        "-12.34"
    );
    let decimal = |value: i128, precision: u8, scale: i8| {
        shown(Cell::Decimal128(value), DataType::Decimal128(precision, scale))
    };
    assert_eq!(decimal(0, 5, 2), "0.00");
    assert_eq!(decimal(-7, 5, 2), "-0.07");
    assert_eq!(decimal(123, 5, 3), "0.123");
    assert_eq!(decimal(1234, 5, 0), "1234");
    assert_eq!(decimal(-12, 5, -3), "-12000");
    assert_eq!(decimal(123_456, 4, 2), "12.34");
    assert_eq!(
        decimal(i128::MIN, 38, 38),
        "-.17014118346046923173168730371588410572"
    );
    let millis = DataType::Timestamp(TimeUnit::Millisecond, None);
    assert_eq!(
        shown(Cell::TimestampMillis(1500), millis),
        "1970-01-01T00:00:01.500"
    );
    let zoned = DataType::Timestamp(TimeUnit::Millisecond, Some("+01:00".to_string()));
    assert_eq!(
        shown(Cell::TimestampMillis(0), zoned.clone()),
        "1970-01-01T01:00:00+01:00"
    );
    assert_eq!(
        cell_text(&Cell::TimestampMillis(8_210_266_876_799_999), &zoned),
        Err(CellError::Unshown)
    );
    assert_eq!(cell_text(&Cell::Null, &DataType::Utf8), Ok(None));
}

#[test]
fn moments_at_the_ends_of_time_are_shown_where_their_local_time_exists() {
    let zoned = |zone: &str| DataType::Timestamp(TimeUnit::Millisecond, Some(zone.to_string()));
    let text = |millis: i64, zone: &str| cell_text(&Cell::TimestampMillis(millis), &zoned(zone));
    let last = 8_210_266_876_799_999;
    let first = -8_334_601_228_800_000;
    assert_eq!(
        text(last, "+00:00"),
        Ok(Some("+262142-12-31T23:59:59.999Z".to_string()))
    );
    assert_eq!(
        text(last, "-08:00"),
        Ok(Some("+262142-12-31T15:59:59.999-08:00".to_string()))
    );
    assert_eq!(text(last, "+00:01"), Err(CellError::Unshown));
    assert_eq!(
        text(first, "+00:00"),
        Ok(Some("-262143-01-01T00:00:00Z".to_string()))
    );
    assert_eq!(text(first, "-08:00"), Err(CellError::Unshown));
    assert_eq!(
        text(first + 28_800_000, "-08:00"),
        Ok(Some("-262143-01-01T00:00:00-08:00".to_string()))
    );
    let refused = "ERROR: Cast error: Failed to convert -8334601228800001 to datetime \
        for Timestamp(Millisecond, Some(\"+08:00\"))";
    assert_eq!(text(first - 1, "+08:00"), Ok(Some(refused.to_string())));
    assert_eq!(text(0, "nowhere"), Err(CellError::Unshown));
}

#[test]
fn a_row_with_a_cell_that_cannot_be_shown_is_not_sent() {
    let broken = batch(vec![
        column(DataType::Int64, vec![Cell::Int64(1)]),
        column(DataType::Decimal128(0, 0), vec![Cell::Decimal128(1)]),
    ]);
    assert_eq!(row_texts(&broken, 0), Err(CellError::Unshown));
    let mut buf = BytesMut::new();
    assert_eq!(
        push_data_row(&mut buf, &broken, 0, None),
        Err(CellError::Unshown)
    );
    assert!(buf.is_empty());
    assert_eq!(
        encode_tail_batch(&mut buf, &broken, 1),
        Err(CellError::Unshown)
    );
    assert!(buf.is_empty());
}
