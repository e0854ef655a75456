use floe_executor::mv::registry::{DbspPersistedState, MaterializedViewRegistry};
use floe_executor::pgwire::params::{
    convert_text_param, convert_with, encode_literal, escape_sql_literal, infer_bound_param,
    infer_with, is_float_literal, is_integer_literal, parse_bool_literal, parse_timestamp_millis,
    BoundParam, ParamKind,
};
use floe_executor::pgwire::sql::{
    count_placeholders, determine_mv_version, find_mv_names, is_tail_statement,
    normalize_identifier, parse_mv_version_literal, rewrite_sql_with_params, PlaceholderError,
};
use postgres_types::Type;

fn float(value: &str) -> Option<String> {
    value.parse::<f64>().ok().map(|number| number.to_string())
}

#[test]
fn detects_mv_names() {
    let sql = r#"SELECT * FROM mv_orders JOIN "mv_Sales" ON mv_orders.id = "mv_Sales".id"#;
    let mut names = find_mv_names(sql);
    names.sort_by(|a, b| a.to_ascii_lowercase().cmp(&b.to_ascii_lowercase()));
    assert_eq!(names, vec!["mv_orders", "mv_Sales"]);
}

#[test]
fn infers_integer_param_from_text() {
    let (param, oid) = infer_bound_param("42", &float("42"));
    assert_eq!(oid, Type::INT8.oid());
    assert_eq!(param, BoundParam::Int8(42));
}

#[test]
fn infers_bool_param_from_text() {
    let (param, oid) = infer_bound_param("TRUE", &float("TRUE"));
    assert_eq!(oid, Type::BOOL.oid());
    assert_eq!(param, BoundParam::Bool(true));
}

#[test]
fn infers_timestamp_param_from_text() {
    let literal = "2024-05-20T12:34:56Z";
    let (param, oid) = infer_bound_param(literal, &float(literal));
    assert_eq!(oid, Type::TIMESTAMPTZ.oid());
    match param {
        BoundParam::Timestamp(ms) => {
            assert_eq!(Some(ms), parse_timestamp_millis(literal));
        }
        other => panic!("expected timestamp, got {other:?}"),
    }
}

#[test]
fn convert_text_param_respects_explicit_type() {
    let (param, oid) = convert_text_param("15", Type::INT8.oid(), &float("15")).expect("param");
    assert_eq!(oid, Type::INT8.oid());
    assert_eq!(param, BoundParam::Int8(15));
}

#[test]
fn rewrite_sql_with_parameters() {
    let sql = "SELECT * FROM mv_orders WHERE id = $1 AND status = $2";
    let params = vec![BoundParam::Int8(42), BoundParam::Text("ready".into())];
    let rewritten = rewrite_sql_with_params(sql, &params).expect("rewrite");
    assert_eq!(
        rewritten,
        "SELECT * FROM mv_orders WHERE id = 42 AND status = 'ready'"
    );
}

#[test]
fn rewrite_sql_escapes_text_literals() {
    let sql = "SELECT $1";
    let params = vec![BoundParam::Text("O'Reilly".into())];
    let rewritten = rewrite_sql_with_params(sql, &params).expect("rewrite");
    assert_eq!(rewritten, "SELECT 'O''Reilly'");
}

#[test]
fn timestamps_are_read_with_their_offset() {
    assert_eq!(parse_timestamp_millis("1970-01-01T00:00:01Z"), Some(1000));
    assert_eq!(parse_timestamp_millis("1970-01-01T01:00:00+01:00"), Some(0));
    assert_eq!(parse_timestamp_millis("yesterday"), None);
}

#[test]
fn texts_that_are_nothing_else_stay_texts() {
    assert_eq!(
        infer_bound_param("ready", &float("ready")),
        (BoundParam::Text("ready".to_string()), Type::TEXT.oid())
    );
    assert_eq!(
        infer_bound_param("1.5", &float("1.5")),
        (BoundParam::Float8("1.5".to_string()), Type::FLOAT8.oid())
    );
    assert_eq!(
        infer_with("x", &None, Some(5)),
        (BoundParam::Timestamp(5), Type::TIMESTAMPTZ.oid())
    );
    assert!(is_integer_literal("-12"));
    assert!(!is_integer_literal("1.5"));
    assert!(is_float_literal("1.5", true));
    assert_eq!(parse_bool_literal("maybe"), None);
}

#[test]
fn a_text_that_does_not_fit_its_type_is_refused() {
    let refuse = |value: &str, oid: u32| {
        convert_text_param(value, oid, &float(value)).expect_err("refused")
    };
    assert_eq!(refuse("x", Type::INT8.oid()), ParamKind::Integer);
    assert_eq!(refuse("x", Type::FLOAT8.oid()), ParamKind::Float);
    assert_eq!(refuse("x", Type::BOOL.oid()), ParamKind::Boolean);
    assert_eq!(refuse("x", Type::TIMESTAMPTZ.oid()), ParamKind::Timestamp);
    assert_eq!(refuse("x", Type::NUMERIC.oid()), ParamKind::Numeric);
    assert_eq!(
        convert_with("x", Type::TIMESTAMPTZ.oid(), &None, Some(7)),
        Ok((BoundParam::Timestamp(7), Type::TIMESTAMPTZ.oid()))
    );
}

#[test]
fn parameters_become_literals() {
    assert_eq!(encode_literal(&BoundParam::Null), "NULL");
    assert_eq!(encode_literal(&BoundParam::Int8(-3)), "-3");
    assert_eq!(encode_literal(&BoundParam::Bool(true)), "TRUE");
    assert_eq!(encode_literal(&BoundParam::Float8("0.5".to_string())), "0.5");
    assert_eq!(escape_sql_literal("a'b"), "a''b");
}

#[test]
fn placeholders_are_numbered_from_one() {
    assert_eq!(count_placeholders("SELECT $1, $3, '$'"), 3);
    assert_eq!(count_placeholders("SELECT 1"), 0);
    let params = vec![BoundParam::Int8(1)];
    assert_eq!(
        rewrite_sql_with_params("SELECT $0", &params),
        Err(PlaceholderError::Zero)
    );
    assert_eq!(
        rewrite_sql_with_params("SELECT $2", &params),
        Err(PlaceholderError::Missing(2))
    );
    assert_eq!(
        rewrite_sql_with_params("SELECT $99999999999999999999999", &params),
        Err(PlaceholderError::TooLarge)
    );
    assert_eq!(
        rewrite_sql_with_params("SELECT 'a'", &Vec::new()),
        Ok("SELECT 'a'".to_string())
    );
}

#[test]
fn each_view_is_named_once() {
    let names = find_mv_names("select mv_a.x from mv_a, mv_b where mv_a.y = mv_b.y");
    assert_eq!(names, vec!["mv_a", "mv_b"]);
    assert_eq!(normalize_identifier("\"mv_X\""), Some("mv_X".to_string()));
    assert!(find_mv_names("select 1").is_empty());
}

#[test]
fn tail_statements_are_told_apart() {
    assert!(is_tail_statement("  tail mv_orders"));
    assert!(!is_tail_statement("select 1"));
}

#[test]
fn the_version_of_a_query_is_asked_for_or_the_latest() {
    type Registry = MaterializedViewRegistry<u8, u8, DbspPersistedState<u8, u8>, u8, u8>;
    assert_eq!(
        parse_mv_version_literal("select * from mv where __mv_version = 12"),
        Some(12)
    );
    assert_eq!(parse_mv_version_literal("select * from mv"), None);
    let mut registry = Registry::new();
    let at = registry.register("mv_a".to_string());
    registry.view_mut(at).publish_logical_version(4);
    let names = vec!["mv_a".to_string()];
    assert_eq!(
        determine_mv_version("select * from mv_a where __mv_version = 2", &names, &registry),
        Some(2)
    );
    let state = DbspPersistedState::new(0, 0, "mv/mv_a".to_string(), 9).with_logical_version(3);
    registry.view_mut(at).set_dbsp_state(state);
    assert_eq!(determine_mv_version("select * from mv_a", &names, &registry), Some(9));
}

#[test]
fn a_bound_text_stays_one_literal() {
    for value in ["", "'", "''", "a'b''c", "'; drop table mv_a; --"] {
        let rewritten = rewrite_sql_with_params(
            "select $1 as x",
            &vec![BoundParam::Text(value.to_string())],
        )
        .expect("rewrite");
        let inner = rewritten
            .strip_prefix("select '")
            .and_then(|rest| rest.strip_suffix("' as x"))
            .expect("one literal");
        assert_eq!(inner.replace("''", "'"), value);
    }
}
