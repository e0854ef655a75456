use bytes::BytesMut;
use floe_executor::columns::Field;
use floe_executor::mv::registry::{DbspPersistedState, MaterializedViewRegistry};
use floe_executor::name_map::NameMap;
use floe_executor::pgwire::cursor::CursorError;
use floe_executor::pgwire::params::{BoundParam, ParamKind};
use floe_executor::pgwire::request::{
    format_code_for_index, read_execute, read_parse, MessagePart, RequestError,
};
use floe_executor::pgwire::rows::TailStreamOutcome;
use floe_executor::pgwire::session::{
    parameter_texts, ConnState, Described, ExecuteStep, TailPortalState,
};
use floe_executor::values::DataType;
use postgres_types::Type;

type Registry = MaterializedViewRegistry<u8, u8, DbspPersistedState<u8, u8>, u8, u8>;

fn state() -> ConnState<u8> {
    ConnState::new(1, 2, NameMap::new())
}

fn schema() -> Vec<Field> {
    vec![Field { name: "id".to_string(), data_type: DataType::Int64, nullable: true }]
}

fn parse(name: &str, sql: &str, types: &[u32]) -> Vec<u8> {
    let mut payload = Vec::new();
    payload.extend_from_slice(name.as_bytes());
    payload.push(0);
    payload.extend_from_slice(sql.as_bytes());
    payload.push(0);
    payload.extend_from_slice(&(types.len() as i16).to_be_bytes());
    for oid in types {
        payload.extend_from_slice(&oid.to_be_bytes());
    }
    payload
}

fn bind(portal: &str, statement: &str, values: &[Option<&str>]) -> Vec<u8> {
    let mut payload = Vec::new();
    payload.extend_from_slice(portal.as_bytes());
    payload.push(0);
    payload.extend_from_slice(statement.as_bytes());
    payload.push(0);
    payload.extend_from_slice(&0_i16.to_be_bytes());
    payload.extend_from_slice(&(values.len() as i16).to_be_bytes());
    for value in values {
        match value {
            Some(text) => {
                payload.extend_from_slice(&(text.len() as i32).to_be_bytes());
                payload.extend_from_slice(text.as_bytes());
            }
            None => payload.extend_from_slice(&(-1_i32).to_be_bytes()),
        }
    }
    payload.extend_from_slice(&0_i16.to_be_bytes());
    payload
}

fn object(variant: u8, name: &str) -> Vec<u8> {
    let mut payload = vec![variant];
    payload.extend_from_slice(name.as_bytes());
    payload.push(0);
    payload
}

fn execute(portal: &str, limit: i32) -> Vec<u8> {
    let mut payload = portal.as_bytes().to_vec();
    payload.push(0);
    payload.extend_from_slice(&limit.to_be_bytes());
    payload
}

fn prepared(sql: &str, types: &[u32]) -> (ConnState<u8>, BytesMut) {
    let mut conn = state();
    let mut buf = BytesMut::new();
    conn.handle_parse(&parse("s", sql, types), &mut buf)
        .expect("parse");
    buf.clear();
    (conn, buf)
}

#[test]
fn a_prepared_statement_is_bound_described_and_run() {
    let mut conn = state();
    let mut buf = BytesMut::new();
    conn.handle_parse(
        &parse("s", "select * from mv_a where id = $1", &[]),
        &mut buf,
    )
    .expect("parse");
    assert_eq!(buf[0], b'1');
    buf.clear();

    let payload = bind("p", "s", &[Some("42")]);
    assert_eq!(parameter_texts(&payload), vec![Some("42".to_string())]);
    conn.handle_bind(&payload, &vec![Some("42".to_string())], &mut buf)
        .expect("bind");
    assert_eq!(buf[0], b'2');
    buf.clear();
    let portal = conn.portals.get("p").expect("portal");
    assert_eq!(portal.params, vec![BoundParam::Int8(42)]);

    let described = conn
        .handle_describe(&object(b'P', "p"), None, &mut buf)
        .expect("describe");
    assert!(matches!(described, Described::NeedsSchema(_)));
    assert!(buf.is_empty());
    let described = conn
        .handle_describe(&object(b'P', "p"), Some(schema()), &mut buf)
        .expect("describe");
    assert_eq!(described, Described::Answered);
    assert_eq!(buf[0], b'T');
    buf.clear();

    let step = conn
        .handle_execute(&execute("p", 10), None, &mut buf)
        .expect("execute");
    assert_eq!(step, ExecuteStep::Query("p".to_string(), Some(10)));

    let mut registry = Registry::new();
    let at = registry.register("mv_a".to_string());
    registry
        .view_mut(at)
        .set_dbsp_state(DbspPersistedState::new(0, 0, "mv/mv_a".to_string(), 6));
    let plan = conn.plan_query("p", &registry).expect("plan");
    assert_eq!(plan.sql, "select * from mv_a where id = 42");
    assert_eq!(plan.version, Some(6));
    assert_eq!(plan.schema.len(), 2);
}

#[test]
fn closed_objects_are_gone() {
    let (mut conn, mut buf) = prepared("select 1", &[]);
    conn.handle_bind(&bind("p", "s", &[]), &Vec::new(), &mut buf)
        .expect("bind");
    buf.clear();
    assert!(conn
        .handle_close(&object(b'P', "p"), &mut buf)
        .expect("close")
        .is_none());
    assert_eq!(&buf[..], b"3\0\0\0\x04");
    assert!(conn.portals.get("p").is_none());
    conn.handle_close(&object(b'S', "s"), &mut buf).expect("close");
    assert!(conn.statements.get("s").is_none());
    assert_eq!(
        conn.handle_close(&object(b'Z', "s"), &mut buf).err(),
        Some(RequestError::UnknownVariant(MessagePart::CloseVariant, b'Z'))
    );
}

#[test]
fn tail_statements_run_as_tails() {
    let (mut conn, mut buf) = prepared("tail mv_a", &[]);
    conn.handle_bind(&bind("p", "s", &[]), &Vec::new(), &mut buf)
        .expect("bind");
    buf.clear();
    assert_eq!(
        conn.handle_execute(&execute("p", 0), None, &mut buf),
        Ok(ExecuteStep::Tail("p".to_string(), None))
    );
    assert_eq!(conn.tail_is_open("p"), Ok(false));
    let mut portal = conn.portals.remove("p").expect("portal");
    portal.tail_state = Some(TailPortalState {
        stream: 7,
        schema: schema(),
        current_batch: None,
        finished: false,
    });
    conn.portals.insert("p".to_string(), portal);
    assert_eq!(conn.tail_is_open("p"), Ok(true));
    buf.clear();
    let suspended =
        conn.finish_tail("p", TailStreamOutcome::Suspended { rows: 3 }, &mut buf);
    assert!(suspended.is_none());
    assert_eq!(buf[0], b's');
    buf.clear();
    let ended = conn.finish_tail("p", TailStreamOutcome::Completed { rows: 3 }, &mut buf);
    assert!(ended.is_some());
    assert_eq!(buf[0], b'C');
    assert_eq!(
        conn.tail_is_open("p"),
        Err(RequestError::PortalNotFound("p".to_string()))
    );
}

#[test]
fn null_and_typed_parameters_are_bound() {
    let (mut conn, mut buf) =
        prepared("select $1, $2", &[Type::BOOL.oid(), Type::INT8.oid()]);
    conn.handle_bind(
        &bind("p", "s", &[Some("true"), None]),
        &vec![None, None],
        &mut buf,
    )
    .expect("bind");
    assert_eq!(
        conn.portals.get("p").expect("portal").params,
        vec![BoundParam::Bool(true), BoundParam::Null]
    );
}

#[test]
fn every_refused_request_has_its_error() {
    let (mut conn, mut buf) = prepared("select $1", &[Type::INT8.oid()]);
    assert_eq!(
        conn.handle_parse(b"s", &mut buf),
        Err(RequestError::Malformed(
            MessagePart::ParseStatement,
            CursorError::Unterminated
        ))
    );
    assert_eq!(
        conn.handle_bind(&bind("p", "nosuch", &[]), &Vec::new(), &mut buf),
        Err(RequestError::StatementNotFound("nosuch".to_string()))
    );
    assert_eq!(
        conn.handle_bind(&bind("p", "s", &[Some("x")]), &vec![None], &mut buf),
        Err(RequestError::InvalidParameter("x".to_string(), ParamKind::Integer))
    );
    assert_eq!(
        conn.handle_describe(&object(b'S', "nosuch"), None, &mut buf),
        Err(RequestError::StatementNotFound("nosuch".to_string()))
    );
    assert_eq!(
        conn.handle_describe(&object(b'P', "nosuch"), None, &mut buf),
        Err(RequestError::PortalNotFound("nosuch".to_string()))
    );
    assert_eq!(
        conn.handle_execute(&execute("nosuch", 0), None, &mut buf),
        Err(RequestError::PortalNotFound("nosuch".to_string()))
    );
    assert_eq!(
        conn.handle_describe(&object(b'Z', "s"), None, &mut buf),
        Err(RequestError::UnknownVariant(MessagePart::DescribeVariant, b'Z'))
    );
}

#[test]
fn requests_are_read_in_full() {
    let request = read_parse(&parse("s", "select 1", &[20])).expect("read");
    assert_eq!(request.name, "s");
    assert_eq!(request.sql, "select 1");
    assert_eq!(request.param_types, vec![20]);
    assert_eq!(read_execute(&execute("p", 0)), Ok(("p".to_string(), None)));
    assert_eq!(read_execute(&execute("p", 5)), Ok(("p".to_string(), Some(5))));
    assert_eq!(format_code_for_index(&vec![], 3), 0);
    assert_eq!(format_code_for_index(&vec![1], 3), 1);
    assert_eq!(format_code_for_index(&vec![1, 0], 1), 0);
    let mut negative = b"s\0q\0".to_vec();
    negative.extend_from_slice(&(-1_i16).to_be_bytes());
    assert_eq!(
        read_parse(&negative),
        Err(RequestError::NegativeCount(MessagePart::ParseParameterCount, -1))
    );
}
