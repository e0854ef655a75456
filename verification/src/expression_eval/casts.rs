//! Casts between types, and nulls of a type.

use vstd::prelude::*;

use super::EvalError;
use crate::text;
use crate::text::{parse_i64, push_signed_decimal, string_of};
use crate::values::{DataType, ScalarValue, ScalarView, TimeUnit};

verus! {

/// The target type is a timestamp in milliseconds without a time zone.
pub open spec fn is_plain_timestamp(data_type: DataType) -> bool {
    data_type matches DataType::Timestamp(TimeUnit::Millisecond, None)
}

/// What casting a value to a type gives.
pub open spec fn cast_outcome(value: ScalarView, data_type: DataType) -> Result<
    ScalarView,
    EvalError,
> {
    if is_plain_timestamp(data_type) {
        match value {
            ScalarView::TimestampMillisecond(_, _) => Ok(value),
            ScalarView::Int64(v) => Ok(ScalarView::TimestampMillisecond(v, None)),
            ScalarView::Null => Ok(ScalarView::TimestampMillisecond(None, None)),
            ScalarView::Utf8(None) => Ok(ScalarView::TimestampMillisecond(None, None)),
            ScalarView::Utf8(Some(text)) => match text::i64_text(text) {
                Some(v) => Ok(ScalarView::TimestampMillisecond(Some(v), None)),
                None => Err(EvalError::CastText),
            },
            _ => Err(EvalError::UnsupportedCast),
        }
    } else {
        match data_type {
            DataType::Int64 => match value {
                ScalarView::Int64(_) => Ok(value),
                ScalarView::TimestampMillisecond(v, _) => Ok(ScalarView::Int64(v)),
                ScalarView::Utf8(Some(text)) => match text::i64_text(text) {
                    Some(v) => Ok(ScalarView::Int64(Some(v))),
                    None => Err(EvalError::CastText),
                },
                ScalarView::Utf8(None) => Ok(ScalarView::Int64(None)),
                ScalarView::Null => Ok(ScalarView::Int64(None)),
                _ => Err(EvalError::UnsupportedCast),
            },
            DataType::Utf8 => match value {
                ScalarView::Utf8(_) => Ok(value),
                ScalarView::Int64(Some(v)) => Ok(
                    ScalarView::Utf8(Some(text::signed_decimal(v as int))),
                ),
                ScalarView::TimestampMillisecond(Some(v), _) => Ok(
                    ScalarView::Utf8(Some(text::signed_decimal(v as int))),
                ),
                ScalarView::Int64(None) => Ok(ScalarView::Utf8(None)),
                ScalarView::TimestampMillisecond(None, _) => Ok(ScalarView::Utf8(None)),
                ScalarView::Null => Ok(ScalarView::Utf8(None)),
                _ => Err(EvalError::UnsupportedCast),
            },
            DataType::Boolean => match value {
                ScalarView::Boolean(_) => Ok(value),
                ScalarView::Null => Ok(ScalarView::Boolean(None)),
                _ => Err(EvalError::UnsupportedCast),
            },
            _ => Err(EvalError::UnsupportedCastTarget),
        }
    }
}

/// The null of a type; the untyped null for a type that nothing can be cast to.
pub open spec fn null_of_type(data_type: DataType) -> ScalarView {
    if is_plain_timestamp(data_type) {
        ScalarView::TimestampMillisecond(None, None)
    } else {
        match data_type {
            DataType::Int64 => ScalarView::Int64(None),
            DataType::Utf8 => ScalarView::Utf8(None),
            DataType::Boolean => ScalarView::Boolean(None),
            _ => ScalarView::Null,
        }
    }
}

/// The null of the type of a value; a value of a type that is only carried along stays as it is.
pub open spec fn null_of_value(value: ScalarView) -> ScalarView {
    match value {
        ScalarView::Int64(_) => ScalarView::Int64(None),
        ScalarView::Utf8(_) => ScalarView::Utf8(None),
        ScalarView::TimestampMillisecond(_, tz) => ScalarView::TimestampMillisecond(None, tz),
        ScalarView::Boolean(_) => ScalarView::Boolean(None),
        ScalarView::Null => ScalarView::Null,
        other => other,
    }
}

/// A cast result as the value it stands for.
pub open spec fn cast_result(result: Result<ScalarValue, EvalError>) -> Result<
    ScalarView,
    EvalError,
> {
    match result {
        Ok(value) => Ok(value@),
        Err(error) => Err(error),
    }
}

fn integer_string(value: i64) -> (text: String)
    ensures
        text@ == text::signed_decimal(value as int),
{
    let mut out: Vec<char> = Vec::new();
    push_signed_decimal(&mut out, value);
    assert(out@ =~= text::signed_decimal(value as int));
    string_of(out)
}

/// Casts a value to a type.
pub fn cast_value(value: &ScalarValue, data_type: &DataType) -> (cast: Result<
    ScalarValue,
    EvalError,
>)
    ensures
        cast_result(cast) == cast_outcome(value@, *data_type),
{
    match data_type {
        DataType::Timestamp(TimeUnit::Millisecond, None) => match value {
            ScalarValue::TimestampMillisecond(_, _) => Ok(value.clone()),
            ScalarValue::Int64(v) => Ok(ScalarValue::TimestampMillisecond(*v, None)),
            ScalarValue::Null => Ok(ScalarValue::TimestampMillisecond(None, None)),
            ScalarValue::Utf8(None) => Ok(ScalarValue::TimestampMillisecond(None, None)),
            ScalarValue::Utf8(Some(text)) => match parse_i64(text.as_str()) {
                Some(v) => Ok(ScalarValue::TimestampMillisecond(Some(v), None)),
                None => Err(EvalError::CastText),
            },
            _ => Err(EvalError::UnsupportedCast),
        },
        DataType::Int64 => match value {
            ScalarValue::Int64(_) => Ok(value.clone()),
            ScalarValue::TimestampMillisecond(v, _) => Ok(ScalarValue::Int64(*v)),
            ScalarValue::Utf8(Some(text)) => match parse_i64(text.as_str()) {
                Some(v) => Ok(ScalarValue::Int64(Some(v))),
                None => Err(EvalError::CastText),
            },
            ScalarValue::Utf8(None) => Ok(ScalarValue::Int64(None)),
            ScalarValue::Null => Ok(ScalarValue::Int64(None)),
            _ => Err(EvalError::UnsupportedCast),
        },
        DataType::Utf8 => match value {
            ScalarValue::Utf8(_) => Ok(value.clone()),
            ScalarValue::Int64(Some(v)) => Ok(ScalarValue::Utf8(Some(integer_string(*v)))),
            ScalarValue::TimestampMillisecond(Some(v), _) => Ok(
                ScalarValue::Utf8(Some(integer_string(*v))),
            ),
            ScalarValue::Int64(None) => Ok(ScalarValue::Utf8(None)),
            ScalarValue::TimestampMillisecond(None, _) => Ok(ScalarValue::Utf8(None)),
            ScalarValue::Null => Ok(ScalarValue::Utf8(None)),
            _ => Err(EvalError::UnsupportedCast),
        },
        DataType::Boolean => match value {
            ScalarValue::Boolean(_) => Ok(value.clone()),
            ScalarValue::Null => Ok(ScalarValue::Boolean(None)),
            _ => Err(EvalError::UnsupportedCast),
        },
        _ => Err(EvalError::UnsupportedCastTarget),
    }
}

/// Casts a value to a type; the null of that type where the cast is not possible.
pub fn try_cast_value(value: &ScalarValue, data_type: &DataType) -> (cast: ScalarValue)
    ensures
        cast@ == match cast_outcome(value@, *data_type) {
            Ok(cast) => cast,
            Err(_) => null_of_type(*data_type),
        },
{
    match cast_value(value, data_type) {
        Ok(cast) => cast,
        Err(_) => null_for_type(data_type),
    }
}

/// The null of a type.
pub fn null_for_type(data_type: &DataType) -> (null: ScalarValue)
    ensures
        null@ == null_of_type(*data_type),
{
    match data_type {
        DataType::Timestamp(TimeUnit::Millisecond, None) => ScalarValue::TimestampMillisecond(
            None,
            None,
        ),
        DataType::Int64 => ScalarValue::Int64(None),
        DataType::Utf8 => ScalarValue::Utf8(None),
        DataType::Boolean => ScalarValue::Boolean(None),
        _ => ScalarValue::Null,
    }
}

/// The null of the type of a value.
pub fn null_like(value: &ScalarValue) -> (null: ScalarValue)
    ensures
        null@ == null_of_value(value@),
{
    match value {
        ScalarValue::Int64(_) => ScalarValue::Int64(None),
        ScalarValue::Utf8(_) => ScalarValue::Utf8(None),
        ScalarValue::TimestampMillisecond(_, tz) => {
            let zone: Option<String> = match tz {
                Some(t) => Some(t.clone()),
                None => None,
            };
            ScalarValue::TimestampMillisecond(None, zone)
        },
        ScalarValue::Boolean(_) => ScalarValue::Boolean(None),
        ScalarValue::Null => ScalarValue::Null,
        _ => value.clone(),
    }
}

/// Casting an integer to text and back gives that integer.
pub proof fn law_integer_text_cast_round_trip(value: i64)
    ensures
        cast_outcome(
            cast_outcome(ScalarView::Int64(Some(value)), DataType::Utf8)->Ok_0,
            DataType::Int64,
        ) == Ok::<ScalarView, EvalError>(ScalarView::Int64(Some(value))),
{
    text::law_decimal_round_trip(value);
}

} // verus!
