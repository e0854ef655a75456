use floe_executor::expression_eval::casts::cast_value;
use floe_executor::expression_eval::predicates::{
    and_bool_opt, eval_binary, or_bool_opt, scalar_compare, scalar_to_i64,
};
use floe_executor::expression_eval::{
    eval_df_expr, eval_if_defined, Column, DfExpr, EvalError, Evaluated, FunctionKind, Operator,
    RowSchema,
};
use floe_executor::values::{DataType, Row, ScalarValue, TimeUnit};

fn schema(fields: Vec<&str>) -> RowSchema {
    RowSchema::new(fields.into_iter().map(String::from).collect())
}

fn col(name: &str) -> DfExpr {
    DfExpr::Column(Column { relation: None, name: name.to_string() })
}

fn text(value: &str) -> ScalarValue {
    ScalarValue::Utf8(Some(value.to_string()))
}

fn literal(value: &str) -> DfExpr {
    DfExpr::Literal(text(value))
}

fn binary(left: DfExpr, op: Operator, right: DfExpr) -> DfExpr {
    DfExpr::BinaryExpr { left: Box::new(left), op, right: Box::new(right) }
}

fn call(name: &str, args: Vec<DfExpr>) -> DfExpr {
    DfExpr::ScalarFunction { name: name.to_string(), args }
}

fn eval(expr: DfExpr, schema: &RowSchema, row: Row) -> ScalarValue {
    eval_df_expr(&expr, &row, schema).expect("eval")
}

fn error(expr: DfExpr, row: Row) -> EvalError {
    eval_df_expr(&expr, &row, &schema(vec!["a"])).expect_err("no value")
}

#[test]
fn expression_eval_in_list_null_semantics() {
    let schema = schema(vec!["a"]);
    let in_list = || DfExpr::InList {
        expr: Box::new(col("a")),
        list: vec![DfExpr::Literal(ScalarValue::Int64(Some(1)))],
        negated: false,
    };
    let value = eval(in_list(), &schema, vec![ScalarValue::Int64(Some(1))]);
    assert_eq!(value, ScalarValue::Boolean(Some(true)));

    let value = eval(in_list(), &schema, vec![ScalarValue::Int64(Some(2))]);
    assert_eq!(value, ScalarValue::Boolean(Some(false)));

    let in_list_null = DfExpr::InList {
        expr: Box::new(col("a")),
        list: vec![
            DfExpr::Literal(ScalarValue::Int64(Some(1))),
            DfExpr::Literal(ScalarValue::Int64(None)),
        ],
        negated: false,
    };
    let value = eval(in_list_null, &schema, vec![ScalarValue::Int64(Some(2))]);
    assert_eq!(value, ScalarValue::Boolean(None));

    let value = eval(in_list(), &schema, vec![ScalarValue::Int64(None)]);
    assert_eq!(value, ScalarValue::Boolean(None));
}

#[test]
fn expression_eval_between_null_semantics() {
    let schema = schema(vec!["a"]);
    let between = || DfExpr::Between {
        expr: Box::new(col("a")),
        negated: false,
        low: Box::new(DfExpr::Literal(ScalarValue::Int64(Some(1)))),
        high: Box::new(DfExpr::Literal(ScalarValue::Int64(Some(3)))),
    };
    let value = eval(between(), &schema, vec![ScalarValue::Int64(Some(2))]);
    assert_eq!(value, ScalarValue::Boolean(Some(true)));

    let value = eval(between(), &schema, vec![ScalarValue::Int64(Some(5))]);
    assert_eq!(value, ScalarValue::Boolean(Some(false)));

    let value = eval(between(), &schema, vec![ScalarValue::Int64(None)]);
    assert_eq!(value, ScalarValue::Boolean(None));
}

#[test]
fn expression_eval_try_cast_returns_null_on_failure() {
    let schema = schema(vec!["a"]);
    let expr = DfExpr::TryCast { expr: Box::new(col("a")), data_type: DataType::Int64 };
    let value = eval(
        expr,
        &schema,
        vec![ScalarValue::Utf8(Some("not-a-number".to_string()))],
    );
    assert_eq!(value, ScalarValue::Int64(None));
}

#[test]
fn expression_eval_scalar_functions_execute() {
    let schema = schema(vec!["a"]);
    let lower_expr = call("lower", vec![col("a")]);
    let value = eval(
        lower_expr,
        &schema,
        vec![ScalarValue::Utf8(Some("HeLLo".to_string()))],
    );
    assert_eq!(value, ScalarValue::Utf8(Some("hello".to_string())));

    let coalesce_expr = call(
        "coalesce",
        vec![DfExpr::Literal(ScalarValue::Utf8(None)), col("a")],
    );
    let value = eval(
        coalesce_expr,
        &schema,
        vec![ScalarValue::Utf8(Some("ok".to_string()))],
    );
    assert_eq!(value, ScalarValue::Utf8(Some("ok".to_string())));

    let length_expr = call("length", vec![col("a")]);
    let value = eval(
        length_expr,
        &schema,
        vec![ScalarValue::Utf8(Some("hi".to_string()))],
    );
    assert_eq!(value, ScalarValue::Int64(Some(2)));
}

#[test]
fn expression_eval_predicate_truth_table_matches_sql_nulls() {
    let schema = schema(vec!["a", "b"]);
    let cases = vec![
        (Some(true), Some(true), Some(true), Some(true)),
        (Some(true), Some(false), Some(false), Some(true)),
        (Some(false), Some(true), Some(false), Some(true)),
        (Some(false), Some(false), Some(false), Some(false)),
        (Some(true), None, None, Some(true)),
        (Some(false), None, Some(false), None),
        (None, Some(true), None, Some(true)),
        (None, Some(false), Some(false), None),
        (None, None, None, None),
    ];

    for (left, right, expected_and, expected_or) in cases {
        let row = vec![ScalarValue::Boolean(left), ScalarValue::Boolean(right)];
        let and_expr = binary(col("a"), Operator::And, col("b"));
        let or_expr = binary(col("a"), Operator::Or, col("b"));
        let and_val = eval(and_expr, &schema, row.clone());
        let or_val = eval(or_expr, &schema, row);
        assert_eq!(and_val, ScalarValue::Boolean(expected_and));
        assert_eq!(or_val, ScalarValue::Boolean(expected_or));
    }
}

#[test]
fn mod_in_list_null_semantics() {
    let schema = schema(vec!["a"]);
    let in_list = || DfExpr::InList {
        expr: Box::new(col("a")),
        list: vec![DfExpr::Literal(ScalarValue::Int64(Some(1)))],
        negated: false,
    };
    let value = eval(in_list(), &schema, vec![ScalarValue::Int64(Some(1))]);
    assert_eq!(value, ScalarValue::Boolean(Some(true)));

    let value = eval(in_list(), &schema, vec![ScalarValue::Int64(Some(2))]);
    assert_eq!(value, ScalarValue::Boolean(Some(false)));

    let in_list_null = DfExpr::InList {
        expr: Box::new(col("a")),
        list: vec![
            DfExpr::Literal(ScalarValue::Int64(Some(1))),
            DfExpr::Literal(ScalarValue::Int64(None)),
        ],
        negated: false,
    };
    let value = eval(in_list_null, &schema, vec![ScalarValue::Int64(Some(2))]);
    assert_eq!(value, ScalarValue::Boolean(None));

    let value = eval(in_list(), &schema, vec![ScalarValue::Int64(None)]);
    assert_eq!(value, ScalarValue::Boolean(None));
}

#[test]
fn mod_between_null_semantics() {
    let schema = schema(vec!["a"]);
    let between = || DfExpr::Between {
        expr: Box::new(col("a")),
        negated: false,
        low: Box::new(DfExpr::Literal(ScalarValue::Int64(Some(1)))),
        high: Box::new(DfExpr::Literal(ScalarValue::Int64(Some(3)))),
    };
    let value = eval(between(), &schema, vec![ScalarValue::Int64(Some(2))]);
    assert_eq!(value, ScalarValue::Boolean(Some(true)));

    let value = eval(between(), &schema, vec![ScalarValue::Int64(Some(5))]);
    assert_eq!(value, ScalarValue::Boolean(Some(false)));

    let value = eval(between(), &schema, vec![ScalarValue::Int64(None)]);
    assert_eq!(value, ScalarValue::Boolean(None));
}

#[test]
fn mod_try_cast_returns_null_on_failure() {
    let schema = schema(vec!["a"]);
    let expr = DfExpr::TryCast { expr: Box::new(col("a")), data_type: DataType::Int64 };
    let value = eval(
        expr,
        &schema,
        vec![ScalarValue::Utf8(Some("not-a-number".to_string()))],
    );
    assert_eq!(value, ScalarValue::Int64(None));
}

#[test]
fn mod_scalar_functions_execute() {
    let schema = schema(vec!["a"]);
    let lower_expr = call("lower", vec![col("a")]);
    let value = eval(
        lower_expr,
        &schema,
        vec![ScalarValue::Utf8(Some("HeLLo".to_string()))],
    );
    assert_eq!(value, ScalarValue::Utf8(Some("hello".to_string())));

    let coalesce_expr = call(
        "coalesce",
        vec![DfExpr::Literal(ScalarValue::Utf8(None)), col("a")],
    );
    let value = eval(
        coalesce_expr,
        &schema,
        vec![ScalarValue::Utf8(Some("ok".to_string()))],
    );
    assert_eq!(value, ScalarValue::Utf8(Some("ok".to_string())));

    let length_expr = call("length", vec![col("a")]);
    let value = eval(
        length_expr,
        &schema,
        vec![ScalarValue::Utf8(Some("hi".to_string()))],
    );
    assert_eq!(value, ScalarValue::Int64(Some(2)));
}

#[test]
fn mod_predicate_truth_table_matches_sql_nulls() {
    let schema = schema(vec!["a", "b"]);
    let cases = vec![
        (Some(true), Some(true), Some(true), Some(true)),
        (Some(true), Some(false), Some(false), Some(true)),
        (Some(false), Some(true), Some(false), Some(true)),
        (Some(false), Some(false), Some(false), Some(false)),
        (Some(true), None, None, Some(true)),
        (Some(false), None, Some(false), None),
        (None, Some(true), None, Some(true)),
        (None, Some(false), Some(false), None),
        (None, None, None, None),
    ];

    for (left, right, expected_and, expected_or) in cases {
        let row = vec![ScalarValue::Boolean(left), ScalarValue::Boolean(right)];
        let and_expr = binary(col("a"), Operator::And, col("b"));
        let or_expr = binary(col("a"), Operator::Or, col("b"));
        let and_val = eval(and_expr, &schema, row.clone());
        let or_val = eval(or_expr, &schema, row);
        assert_eq!(and_val, ScalarValue::Boolean(expected_and));
        assert_eq!(or_val, ScalarValue::Boolean(expected_or));
    }
}

#[test]
fn like_expression_uses_general_pattern_matching() {
    let schema = schema(vec!["txt"]);
    let expr = || DfExpr::Like { expr: Box::new(col("txt")), pattern: Box::new(literal("a_c%")) };
    let value = eval(expr(), &schema, vec![text("abchello")]);
    assert_eq!(value, ScalarValue::Boolean(Some(true)));

    let value = eval(expr(), &schema, vec![text("ac")]);
    assert_eq!(value, ScalarValue::Boolean(Some(false)));
}

fn nexmark_row(url: Option<&str>) -> Row {
    vec![
        ScalarValue::TimestampMillisecond(Some(1_600_000_000), None),
        ScalarValue::Utf8(url.map(String::from)),
        text("abcccd"),
        text("Apple"),
    ]
}

#[test]
fn nexmark_scalar_functions_execute_with_null_semantics() {
    let schema = schema(vec!["ts", "url", "text", "channel"]);

    let hour_expr = call("hour", vec![col("ts")]);
    let value = eval(
        hour_expr,
        &schema,
        nexmark_row(Some("http://x/?a=1&channel_id=42")),
    );
    assert_eq!(value, ScalarValue::Int64(Some(12)));

    let date_expr = call("date_format", vec![col("ts"), literal("yyyy-MM-dd")]);
    let value = eval(
        date_expr,
        &schema,
        nexmark_row(Some("http://x/?a=1&channel_id=42")),
    );
    assert_eq!(value, ScalarValue::Utf8(Some("1970-01-19".to_string())));

    let regex_expr = || {
        call(
            "regexp_extract",
            vec![
                col("url"),
                literal("(&|^)channel_id=([^&]*)"),
                DfExpr::Literal(ScalarValue::Int64(Some(2))),
            ],
        )
    };
    let value = eval(
        regex_expr(),
        &schema,
        nexmark_row(Some("http://x/?a=1&channel_id=42")),
    );
    assert_eq!(value, ScalarValue::Utf8(Some("42".to_string())));
    let value = eval(regex_expr(), &schema, nexmark_row(None));
    assert_eq!(value, ScalarValue::Utf8(None));

    let split_expr = call(
        "split_index",
        vec![
            col("url"),
            literal("/"),
            DfExpr::Literal(ScalarValue::Int64(Some(3))),
        ],
    );
    let value = eval(split_expr, &schema, nexmark_row(Some("http://host/a/b/c")));
    assert_eq!(value, ScalarValue::Utf8(Some("a".to_string())));

    let count_char_expr = call("count_char", vec![col("text"), literal("c")]);
    let value = eval(
        count_char_expr,
        &schema,
        nexmark_row(Some("http://x/?channel_id=42")),
    );
    assert_eq!(value, ScalarValue::Int64(Some(3)));
}

#[test]
fn case_and_nested_predicates_match_q21_shape() {
    let schema = schema(vec!["channel", "url"]);

    let extract = || {
        call(
            "regexp_extract",
            vec![
                col("url"),
                literal("(&|^)channel_id=([^&]*)"),
                DfExpr::Literal(ScalarValue::Int64(Some(2))),
            ],
        )
    };
    let case_expr = || DfExpr::Case {
        base: None,
        when_then: vec![(
            binary(
                call("lower", vec![col("channel")]),
                Operator::Eq,
                literal("apple"),
            ),
            literal("0"),
        )],
        otherwise: Some(Box::new(extract())),
    };

    let row = vec![text("custom"), text("http://x/?a=1&channel_id=17")];
    let value = eval(case_expr(), &schema, row);
    assert_eq!(value, ScalarValue::Utf8(Some("17".to_string())));

    let row = vec![text("Apple"), text("http://x/?a=1&channel_id=17")];
    let value = eval(case_expr(), &schema, row);
    assert_eq!(value, ScalarValue::Utf8(Some("0".to_string())));

    let predicate = binary(
        DfExpr::IsNotNull(Box::new(extract())),
        Operator::Or,
        DfExpr::InList {
            expr: Box::new(call("lower", vec![col("channel")])),
            list: vec![literal("apple"), literal("google")],
            negated: false,
        },
    );

    let row = vec![text("custom"), text("http://x/")];
    let value = eval(predicate, &schema, row);
    assert_eq!(value, ScalarValue::Boolean(Some(false)));
}

#[test]
fn letters_change_case_beyond_ascii() {
    let schema = schema(vec!["a"]);
    let upper = eval(call("upper", vec![col("a")]), &schema, vec![text("straße")]);
    assert_eq!(upper, text("STRASSE"));
    let lower = eval(call("lower", vec![col("a")]), &schema, vec![text("ÄPFEL")]);
    assert_eq!(lower, text("äpfel"));
}

#[test]
fn a_date_pattern_may_hold_a_time() {
    let schema = schema(vec!["ts"]);
    let row = vec![ScalarValue::TimestampMillisecond(Some(0), None)];
    let value = eval(
        call("date_format", vec![col("ts"), literal("yyyy-MM-dd HH:mm:ss")]),
        &schema,
        row,
    );
    assert_eq!(value, text("1970-01-01 00:00:00"));
}

#[test]
fn a_pattern_that_is_no_regular_expression_finds_nothing() {
    let schema = schema(vec!["a"]);
    let extract = |pattern: &str| {
        call(
            "regexp_extract",
            vec![
                col("a"),
                literal(pattern),
                DfExpr::Literal(ScalarValue::Int64(Some(1))),
            ],
        )
    };
    assert_eq!(eval(extract("b(.)d"), &schema, vec![text("abcde")]), text("c"));
    assert_eq!(
        eval(extract("x(.)y"), &schema, vec![text("abcde")]),
        ScalarValue::Utf8(None)
    );
}

#[test]
fn truth_values_combine_as_in_sql() {
    assert_eq!(and_bool_opt(None, Some(false)), Some(false));
    assert_eq!(and_bool_opt(None, Some(true)), None);
    assert_eq!(or_bool_opt(None, Some(true)), Some(true));
    assert_eq!(or_bool_opt(Some(false), None), None);
}

#[test]
fn values_are_ordered_within_their_type() {
    let one = ScalarValue::Int64(Some(1));
    let two = ScalarValue::Int64(Some(2));
    assert_eq!(scalar_compare(&one, &two, Operator::Lt), Ok(Some(true)));
    assert_eq!(scalar_compare(&two, &one, Operator::LtEq), Ok(Some(false)));
    assert_eq!(
        scalar_compare(&one, &ScalarValue::Int64(None), Operator::Gt),
        Ok(None)
    );
    assert_eq!(
        scalar_compare(&text("b"), &text("a"), Operator::GtEq),
        Ok(Some(true))
    );
    assert_eq!(
        scalar_compare(&one, &text("a"), Operator::Lt),
        Err(EvalError::ComparisonOperands)
    );
    assert_eq!(
        scalar_compare(&one, &two, Operator::Plus),
        Err(EvalError::ComparisonOperator)
    );
    assert_eq!(scalar_to_i64(&text("a")), Err(EvalError::ArithmeticOperand));
}

#[test]
fn arithmetic_that_leaves_its_range_is_not_evaluated() {
    let one = ScalarValue::Int64(Some(1));
    let most = ScalarValue::Int64(Some(i64::MAX));
    assert!(matches!(eval_binary(Operator::Plus, &most, &one), Evaluated::Panics));
    let zero = ScalarValue::Int64(Some(0));
    assert!(matches!(eval_binary(Operator::Divide, &one, &zero), Evaluated::Panics));
    assert!(eval_if_defined(
        &binary(
            DfExpr::Literal(ScalarValue::Int64(Some(1))),
            Operator::Modulo,
            DfExpr::Literal(ScalarValue::Int64(Some(0))),
        ),
        &vec![],
        &schema(vec![]),
    )
    .is_none());
}

#[test]
fn casts_between_types() {
    let millis = DataType::Timestamp(TimeUnit::Millisecond, None);
    assert_eq!(
        cast_value(&ScalarValue::Int64(Some(5)), &millis),
        Ok(ScalarValue::TimestampMillisecond(Some(5), None))
    );
    assert_eq!(
        cast_value(&text("-17"), &DataType::Int64),
        Ok(ScalarValue::Int64(Some(-17)))
    );
    assert_eq!(
        cast_value(&ScalarValue::Int64(Some(-17)), &DataType::Utf8),
        Ok(text("-17"))
    );
    assert_eq!(
        cast_value(&text("seven"), &DataType::Int64),
        Err(EvalError::CastText)
    );
    assert_eq!(
        cast_value(&ScalarValue::Boolean(Some(true)), &DataType::Int64),
        Err(EvalError::UnsupportedCast)
    );
    assert_eq!(
        cast_value(&text("x"), &DataType::Binary),
        Err(EvalError::UnsupportedCastTarget)
    );
}

#[test]
fn every_failed_expression_has_its_error() {
    let number = || vec![ScalarValue::Int64(Some(1))];
    assert_eq!(error(col("b"), number()), EvalError::ColumnNotFound);
    assert_eq!(error(col("a"), vec![]), EvalError::ColumnOutOfBounds(0));
    assert_eq!(
        error(DfExpr::Not(Box::new(col("a"))), number()),
        EvalError::NotBoolean
    );
    assert_eq!(
        error(DfExpr::Negative(Box::new(literal("x"))), number()),
        EvalError::UnsupportedNegation
    );
    assert_eq!(
        error(
            DfExpr::Like { expr: Box::new(col("a")), pattern: Box::new(literal("x")) },
            number()
        ),
        EvalError::LikeInput
    );
    assert_eq!(
        error(
            DfExpr::Like { expr: Box::new(literal("x")), pattern: Box::new(col("a")) },
            number()
        ),
        EvalError::LikePattern
    );
    assert_eq!(
        error(binary(col("a"), Operator::StringConcat, literal("x")), number()),
        EvalError::ConcatOperand
    );
    assert_eq!(
        error(binary(col("a"), Operator::Unsupported, literal("x")), number()),
        EvalError::UnsupportedOperator
    );
    assert_eq!(
        error(call("lower", vec![]), number()),
        EvalError::ArgumentCount(FunctionKind::Lower, 0)
    );
    assert_eq!(
        error(call("lower", vec![col("a")]), number()),
        EvalError::ArgumentType(FunctionKind::Lower)
    );
    assert_eq!(
        error(
            call("abs", vec![col("a")]),
            vec![ScalarValue::Int64(Some(i64::MIN))]
        ),
        EvalError::AbsOverflow
    );
    assert_eq!(
        error(call("nosuch", vec![]), number()),
        EvalError::UnsupportedFunction
    );
    assert_eq!(
        error(DfExpr::Unsupported, number()),
        EvalError::UnsupportedExpression
    );
}

#[test]
fn moments_outside_of_the_calendar_have_no_hour_and_no_text() {
    let schema = RowSchema::new(vec!["ts".to_string()]);
    let at = |millis: i64| vec![ScalarValue::TimestampMillisecond(Some(millis), None)];
    let hour = || call("hour", vec![col("ts")]);
    let date = || call("date_format", vec![col("ts"), literal("yyyy-MM-dd")]);
    let first = -8_334_601_228_800_000;
    let last = 8_210_266_876_799_999;
    assert_eq!(eval(hour(), &schema, at(first)), ScalarValue::Int64(Some(0)));
    assert_eq!(eval(hour(), &schema, at(last)), ScalarValue::Int64(Some(23)));
    for outside in [first - 1, first - 86_400_000, last + 1] {
        assert_eq!(eval(hour(), &schema, at(outside)), ScalarValue::Int64(None));
        assert_eq!(eval(date(), &schema, at(outside)), ScalarValue::Utf8(None));
    }
    assert_eq!(
        eval(date(), &schema, at(first)),
        ScalarValue::Utf8(Some("-262143-01-01".to_string()))
    );
}
