//! Functions that can be called in an expression.

use chrono::{TimeZone, Timelike, Utc};
use regex::Regex;
use vstd::prelude::*;
use vstd::utf8::*;

use super::casts;
use super::casts::null_like;
use super::{EvalError, Evaluated, FunctionKind, Outcome};
use crate::text;
use crate::text::{chars_of, push_text, replace_chars, same_text, split_chars, string_of, to_ascii_lower};
use crate::values;
use crate::values::{Row, ScalarValue, ScalarView};

verus! {

/// The text that `str::to_lowercase` gives.
pub uninterp spec fn lowercased(text: Seq<char>) -> Seq<char>;

/// The text that `str::to_uppercase` gives.
pub uninterp spec fn uppercased(text: Seq<char>) -> Seq<char>;

/// What `Regex::captures` finds for a group of a pattern in a text; nothing for a pattern that
/// `Regex::new` refuses.
pub uninterp spec fn regex_capture(
    pattern: Seq<char>,
    text: Seq<char>,
    group: nat,
) -> Option<Seq<char>>;

/// How `DateTime::format` renders a moment in UTC with a pattern of chrono; nothing for a pattern
/// that it cannot render.
pub uninterp spec fn rendered_timestamp(millis: i64, pattern: Seq<char>) -> Option<Seq<char>>;

/// The moments that chrono can hold, in milliseconds since the epoch: from the start of the year
/// -262143 to the end of the year 262142.
pub open spec fn moment_in_range(millis: int) -> bool {
    -8_334_601_228_800_000 <= millis <= 8_210_266_876_799_999
}

/// `str::to_lowercase`: the same text always gives the same lower case text, and ASCII text has
/// its capitals replaced by small letters.
#[verifier::external_body]
fn lowercase(input: &str) -> (lowered: String)
    ensures
        lowered@ == lowercased(input@),
        is_ascii_chars(input@) ==> lowered@ == text::ascii_lowered(input@),
{
    input.to_lowercase()
}

/// `str::to_uppercase`: the same text always gives the same upper case text, and ASCII text has
/// its small letters replaced by capitals.
#[verifier::external_body]
fn uppercase(input: &str) -> (raised: String)
    ensures
        raised@ == uppercased(input@),
        is_ascii_chars(input@) ==> raised@ == text::ascii_raised(input@),
{
    input.to_uppercase()
}

/// `Regex::new`, `Regex::captures` and `Captures::get`: the text of a group where the pattern first
/// matches. Which text that is, is left to the names of the result.
#[verifier::external_body]
fn capture_group(pattern: &str, input: &str, group: usize) -> (captured: Option<String>)
    ensures
        values::opt_text(captured) == regex_capture(pattern@, input@, group as nat),
{
    let regex = Regex::new(pattern).ok()?;
    let captures = regex.captures(input)?;
    captures.get(group).map(|found| found.as_str().to_string())
}

/// `TimeZone::timestamp_millis_opt` and `Timelike::hour`: the hour of the day in UTC, for every
/// moment that chrono can hold.
#[verifier::external_body]
fn utc_hour(millis: i64) -> (hour: Option<u32>)
    ensures
        match hour {
            Some(h) => moment_in_range(millis as int) && h == (millis as int / 3_600_000) % 24,
            None => !moment_in_range(millis as int),
        },
{
    let moment = Utc.timestamp_millis_opt(millis).single()?;
    Some(moment.hour())
}

/// `TimeZone::timestamp_millis_opt` and `DelayedFormat::write_to`: the rendering of a moment that
/// chrono can hold, or nothing where the pattern cannot be rendered.
#[verifier::external_body]
fn render_timestamp(millis: i64, pattern: &str) -> (rendered: Option<String>)
    requires
        moment_in_range(millis as int),
    ensures
        values::opt_text(rendered) == rendered_timestamp(millis, pattern@),
{
    let moment = Utc.timestamp_millis_opt(millis).single()?;
    let mut rendered = String::new();
    match moment.format(pattern).write_to(&mut rendered) {
        Ok(()) => Some(rendered),
        Err(_) => None,
    }
}

/// A text in small letters: ASCII letter by letter, any other text as `str::to_lowercase` gives it.
pub open spec fn lower_text(text: Seq<char>) -> Seq<char> {
    if is_ascii_chars(text) {
        text::ascii_lowered(text)
    } else {
        lowercased(text)
    }
}

/// A text in capitals: ASCII letter by letter, any other text as `str::to_uppercase` gives it.
pub open spec fn upper_text(text: Seq<char>) -> Seq<char> {
    if is_ascii_chars(text) {
        text::ascii_raised(text)
    } else {
        uppercased(text)
    }
}

/// The function with this name in small letters.
pub open spec fn function_named(name: Seq<char>) -> Option<FunctionKind> {
    if name == "lower"@ {
        Some(FunctionKind::Lower)
    } else if name == "upper"@ {
        Some(FunctionKind::Upper)
    } else if name == "length"@ || name == "char_length"@ || name == "character_length"@ {
        Some(FunctionKind::Length)
    } else if name == "abs"@ {
        Some(FunctionKind::Abs)
    } else if name == "coalesce"@ {
        Some(FunctionKind::Coalesce)
    } else if name == "nullif"@ {
        Some(FunctionKind::NullIf)
    } else if name == "concat"@ {
        Some(FunctionKind::Concat)
    } else if name == "hour"@ {
        Some(FunctionKind::Hour)
    } else if name == "date_format"@ {
        Some(FunctionKind::DateFormat)
    } else if name == "regexp_extract"@ {
        Some(FunctionKind::RegexpExtract)
    } else if name == "split_index"@ {
        Some(FunctionKind::SplitIndex)
    } else if name == "count_char"@ {
        Some(FunctionKind::CountChar)
    } else if name == "proctime"@ {
        Some(FunctionKind::ProcTime)
    } else {
        None
    }
}

/// An argument as text; nothing for a null.
pub open spec fn text_argument(value: ScalarView, kind: FunctionKind) -> Result<
    Option<Seq<char>>,
    EvalError,
> {
    match value {
        ScalarView::Utf8(text) => Ok(text),
        ScalarView::Null => Ok(None),
        _ => Err(EvalError::ArgumentType(kind)),
    }
}

/// An argument as an integer; nothing for a null.
pub open spec fn integer_argument(value: ScalarView, kind: FunctionKind) -> Result<
    Option<i64>,
    EvalError,
> {
    match value {
        ScalarView::Int64(number) => Ok(number),
        ScalarView::Null => Ok(None),
        _ => Err(EvalError::ArgumentType(kind)),
    }
}

/// An argument as a timestamp; nothing for a null.
pub open spec fn timestamp_argument(value: ScalarView, kind: FunctionKind) -> Result<
    Option<i64>,
    EvalError,
> {
    match value {
        ScalarView::TimestampMillisecond(millis, _) => Ok(millis),
        ScalarView::Null => Ok(None),
        _ => Err(EvalError::ArgumentType(kind)),
    }
}

/// The first argument that is not null.
pub open spec fn first_non_null(args: Seq<ScalarView>) -> Option<ScalarView>
    decreases args.len(),
{
    if args.len() == 0 {
        None
    } else if !values::null_value(args[0]) {
        Some(args[0])
    } else {
        first_non_null(args.drop_first())
    }
}

/// What appending the arguments to `so_far` comes to; the first null ends it.
pub open spec fn concat_outcome(so_far: Seq<char>, args: Seq<ScalarView>) -> Outcome
    decreases args.len(),
{
    if args.len() == 0 {
        Outcome::Value(ScalarView::Utf8(Some(so_far)))
    } else {
        match text_argument(args[0], FunctionKind::Concat) {
            Ok(Some(piece)) => concat_outcome(so_far + piece, args.drop_first()),
            Ok(None) => Outcome::Value(ScalarView::Utf8(None)),
            Err(error) => Outcome::Error(error),
        }
    }
}

/// What the absolute value comes to.
pub open spec fn abs_outcome(arg: ScalarView) -> Outcome {
    match integer_argument(arg, FunctionKind::Abs) {
        Err(error) => Outcome::Error(error),
        Ok(None) => Outcome::Value(ScalarView::Int64(None)),
        Ok(Some(v)) => if v == i64::MIN {
            Outcome::Error(EvalError::AbsOverflow)
        } else {
            Outcome::Value(
                ScalarView::Int64(
                    Some(
                        if v < 0 {
                            (-v) as i64
                        } else {
                            v
                        },
                    ),
                ),
            )
        },
    }
}

/// A date pattern in chrono's notation.
pub open spec fn normalized_pattern(pattern: Seq<char>) -> Seq<char> {
    let p1 = text::replaced_from(pattern, "yyyy"@, "%Y"@, 0);
    let p2 = text::replaced_from(p1, "MM"@, "%m"@, 0);
    let p3 = text::replaced_from(p2, "dd"@, "%d"@, 0);
    let p4 = text::replaced_from(p3, "HH"@, "%H"@, 0);
    let p5 = text::replaced_from(p4, "mm"@, "%M"@, 0);
    text::replaced_from(p5, "ss"@, "%S"@, 0)
}

/// What formatting a date comes to.
pub open spec fn date_format_outcome(timestamp: ScalarView, pattern: ScalarView) -> Outcome {
    match timestamp_argument(timestamp, FunctionKind::DateFormat) {
        Err(error) => Outcome::Error(error),
        Ok(None) => Outcome::Value(ScalarView::Utf8(None)),
        Ok(Some(millis)) => match text_argument(pattern, FunctionKind::DateFormat) {
            Err(error) => Outcome::Error(error),
            Ok(None) => Outcome::Value(ScalarView::Utf8(None)),
            Ok(Some(p)) => if !moment_in_range(millis as int) {
                Outcome::Value(ScalarView::Utf8(None))
            } else {
                date_text_outcome(rendered_timestamp(millis, normalized_pattern(p)))
            },
        },
    }
}

/// What formatting a date comes to once it is rendered.
pub open spec fn date_text_outcome(rendered: Option<Seq<char>>) -> Outcome {
    match rendered {
        Some(t) => Outcome::Value(ScalarView::Utf8(Some(t))),
        None => Outcome::Panics,
    }
}

/// What extracting a group of a regular expression comes to.
pub open spec fn regexp_extract_outcome(
    input: ScalarView,
    pattern: ScalarView,
    group: ScalarView,
) -> Outcome {
    match text_argument(input, FunctionKind::RegexpExtract) {
        Err(error) => Outcome::Error(error),
        Ok(None) => Outcome::Value(ScalarView::Utf8(None)),
        Ok(Some(t)) => match text_argument(pattern, FunctionKind::RegexpExtract) {
            Err(error) => Outcome::Error(error),
            Ok(None) => Outcome::Value(ScalarView::Utf8(None)),
            Ok(Some(p)) => match integer_argument(group, FunctionKind::RegexpExtract) {
                Err(error) => Outcome::Error(error),
                Ok(None) => Outcome::Value(ScalarView::Utf8(None)),
                Ok(Some(g)) => if g < 0 {
                    Outcome::Value(ScalarView::Utf8(None))
                } else {
                    Outcome::Value(ScalarView::Utf8(regex_capture(p, t, (g as usize) as nat)))
                },
            },
        },
    }
}

/// The piece at a position of a split text, where there is one.
pub open spec fn piece_at(input: Seq<char>, delimiter: Seq<char>, index: int) -> Option<Seq<char>> {
    let pieces = text::split_pieces(input, delimiter, 0);
    if 0 <= index < pieces.len() {
        Some(pieces[index])
    } else {
        None
    }
}

/// What taking one piece of a split text comes to.
pub open spec fn split_index_outcome(
    input: ScalarView,
    delimiter: ScalarView,
    index: ScalarView,
) -> Outcome {
    match text_argument(input, FunctionKind::SplitIndex) {
        Err(error) => Outcome::Error(error),
        Ok(None) => Outcome::Value(ScalarView::Utf8(None)),
        Ok(Some(t)) => match text_argument(delimiter, FunctionKind::SplitIndex) {
            Err(error) => Outcome::Error(error),
            Ok(None) => Outcome::Value(ScalarView::Utf8(None)),
            Ok(Some(d)) => match integer_argument(index, FunctionKind::SplitIndex) {
                Err(error) => Outcome::Error(error),
                Ok(None) => Outcome::Value(ScalarView::Utf8(None)),
                Ok(Some(i)) => if i < 0 || d.len() == 0 {
                    Outcome::Value(ScalarView::Utf8(None))
                } else {
                    Outcome::Value(ScalarView::Utf8(piece_at(t, d, i as int)))
                },
            },
        },
    }
}

/// What counting the occurrences of a text comes to.
pub open spec fn count_char_outcome(input: ScalarView, needle: ScalarView) -> Outcome {
    match text_argument(input, FunctionKind::CountChar) {
        Err(error) => Outcome::Error(error),
        Ok(None) => Outcome::Value(ScalarView::Int64(None)),
        Ok(Some(t)) => match text_argument(needle, FunctionKind::CountChar) {
            Err(error) => Outcome::Error(error),
            Ok(None) => Outcome::Value(ScalarView::Int64(None)),
            Ok(Some(n)) => if n.len() == 0 {
                Outcome::Value(ScalarView::Int64(Some(0)))
            } else {
                Outcome::Value(
                    ScalarView::Int64(Some((text::split_pieces(t, n, 0).len() - 1) as i64)),
                )
            },
        },
    }
}

/// How many arguments a function takes; nothing where any positive number will do.
pub open spec fn argument_count(kind: FunctionKind) -> Option<nat> {
    match kind {
        FunctionKind::Coalesce | FunctionKind::Concat => None,
        FunctionKind::ProcTime => Some(0),
        FunctionKind::NullIf | FunctionKind::DateFormat | FunctionKind::CountChar => Some(2),
        FunctionKind::RegexpExtract | FunctionKind::SplitIndex => Some(3),
        _ => Some(1),
    }
}

/// Whether a function takes this many arguments.
pub open spec fn accepts_count(kind: FunctionKind, count: nat) -> bool {
    match argument_count(kind) {
        Some(n) => count == n,
        None => count > 0,
    }
}

/// What applying a function to values comes to.
pub open spec fn apply_outcome(kind: FunctionKind, args: Seq<ScalarView>) -> Outcome {
    if !accepts_count(kind, args.len()) {
        Outcome::Error(EvalError::ArgumentCount(kind, args.len() as usize))
    } else {
        match kind {
            FunctionKind::Lower => match text_argument(args[0], kind) {
                Err(error) => Outcome::Error(error),
                Ok(None) => Outcome::Value(ScalarView::Utf8(None)),
                Ok(Some(t)) => Outcome::Value(ScalarView::Utf8(Some(lower_text(t)))),
            },
            FunctionKind::Upper => match text_argument(args[0], kind) {
                Err(error) => Outcome::Error(error),
                Ok(None) => Outcome::Value(ScalarView::Utf8(None)),
                Ok(Some(t)) => Outcome::Value(ScalarView::Utf8(Some(upper_text(t)))),
            },
            FunctionKind::Length => match text_argument(args[0], kind) {
                Err(error) => Outcome::Error(error),
                Ok(None) => Outcome::Value(ScalarView::Int64(None)),
                Ok(Some(t)) => Outcome::Value(ScalarView::Int64(Some(t.len() as i64))),
            },
            FunctionKind::Abs => abs_outcome(args[0]),
            FunctionKind::Coalesce => match first_non_null(args) {
                Some(value) => Outcome::Value(value),
                None => Outcome::Value(casts::null_of_value(args[0])),
            },
            FunctionKind::NullIf => Outcome::Value(
                if super::equal_values(args[0], args[1]) == Some(true) {
                    casts::null_of_value(args[0])
                } else {
                    args[0]
                },
            ),
            FunctionKind::Concat => concat_outcome(Seq::empty(), args),
            FunctionKind::Hour => match timestamp_argument(args[0], kind) {
                Err(error) => Outcome::Error(error),
                Ok(None) => Outcome::Value(ScalarView::Int64(None)),
                Ok(Some(millis)) => Outcome::Value(
                    ScalarView::Int64(
                        if moment_in_range(millis as int) {
                            Some(((millis as int / 3_600_000) % 24) as i64)
                        } else {
                            None
                        },
                    ),
                ),
            },
            FunctionKind::DateFormat => date_format_outcome(args[0], args[1]),
            FunctionKind::RegexpExtract => regexp_extract_outcome(args[0], args[1], args[2]),
            FunctionKind::SplitIndex => split_index_outcome(args[0], args[1], args[2]),
            FunctionKind::CountChar => count_char_outcome(args[0], args[1]),
            FunctionKind::ProcTime => Outcome::Value(ScalarView::TimestampMillisecond(None, None)),
        }
    }
}

/// What calling a function by name comes to; capitals in the name do not matter.
pub open spec fn function_outcome(name: Seq<char>, args: Seq<ScalarView>) -> Outcome {
    match function_named(text::ascii_lowered(name)) {
        None => Outcome::Error(EvalError::UnsupportedFunction),
        Some(kind) => apply_outcome(kind, args),
    }
}

fn find_function(name: &str) -> (kind: Option<FunctionKind>)
    ensures
        kind == function_named(name@),
{
    if same_text(name, "lower") {
        Some(FunctionKind::Lower)
    } else if same_text(name, "upper") {
        Some(FunctionKind::Upper)
    } else if same_text(name, "length") || same_text(name, "char_length") || same_text(
        name,
        "character_length",
    ) {
        Some(FunctionKind::Length)
    } else if same_text(name, "abs") {
        Some(FunctionKind::Abs)
    } else if same_text(name, "coalesce") {
        Some(FunctionKind::Coalesce)
    } else if same_text(name, "nullif") {
        Some(FunctionKind::NullIf)
    } else if same_text(name, "concat") {
        Some(FunctionKind::Concat)
    } else if same_text(name, "hour") {
        Some(FunctionKind::Hour)
    } else if same_text(name, "date_format") {
        Some(FunctionKind::DateFormat)
    } else if same_text(name, "regexp_extract") {
        Some(FunctionKind::RegexpExtract)
    } else if same_text(name, "split_index") {
        Some(FunctionKind::SplitIndex)
    } else if same_text(name, "count_char") {
        Some(FunctionKind::CountChar)
    } else if same_text(name, "proctime") {
        Some(FunctionKind::ProcTime)
    } else {
        None
    }
}

/// An argument as text; nothing for a null.
fn read_text<'a>(value: &'a ScalarValue, kind: FunctionKind) -> (read: Result<
    Option<&'a String>,
    EvalError,
>)
    ensures
        match read {
            Ok(Some(t)) => text_argument(value@, kind) == Ok::<Option<Seq<char>>, EvalError>(
                Some(t@),
            ),
            Ok(None) => text_argument(value@, kind) == Ok::<Option<Seq<char>>, EvalError>(None),
            Err(error) => text_argument(value@, kind) == Err::<Option<Seq<char>>, EvalError>(
                error,
            ),
        },
{
    match value {
        ScalarValue::Utf8(Some(t)) => Ok(Some(t)),
        ScalarValue::Utf8(None) => Ok(None),
        ScalarValue::Null => Ok(None),
        _ => Err(EvalError::ArgumentType(kind)),
    }
}

/// An argument as an integer; nothing for a null.
fn read_integer(value: &ScalarValue, kind: FunctionKind) -> (read: Result<Option<i64>, EvalError>)
    ensures
        read == integer_argument(value@, kind),
{
    match value {
        ScalarValue::Int64(number) => Ok(*number),
        ScalarValue::Null => Ok(None),
        _ => Err(EvalError::ArgumentType(kind)),
    }
}

/// An argument as a timestamp; nothing for a null.
fn read_timestamp(value: &ScalarValue, kind: FunctionKind) -> (read: Result<
    Option<i64>,
    EvalError,
>)
    ensures
        read == timestamp_argument(value@, kind),
{
    match value {
        ScalarValue::TimestampMillisecond(millis, _) => Ok(*millis),
        ScalarValue::Null => Ok(None),
        _ => Err(EvalError::ArgumentType(kind)),
    }
}

fn eval_case_change(arg: &ScalarValue, upper: bool) -> (result: Evaluated)
    ensures
        result@ == apply_outcome(
            if upper {
                FunctionKind::Upper
            } else {
                FunctionKind::Lower
            },
            seq![arg@],
        ),
{
    let kind: FunctionKind = if upper {
        FunctionKind::Upper
    } else {
        FunctionKind::Lower
    };
    match read_text(arg, kind) {
        Err(error) => Evaluated::Error(error),
        Ok(None) => Evaluated::Value(ScalarValue::Utf8(None)),
        Ok(Some(t)) => {
            let changed: String = if upper {
                uppercase(t.as_str())
            } else {
                lowercase(t.as_str())
            };
            Evaluated::Value(ScalarValue::Utf8(Some(changed)))
        },
    }
}

fn eval_length(arg: &ScalarValue) -> (result: Evaluated)
    ensures
        result@ == apply_outcome(FunctionKind::Length, seq![arg@]),
{
    match read_text(arg, FunctionKind::Length) {
        Err(error) => Evaluated::Error(error),
        Ok(None) => Evaluated::Value(ScalarValue::Int64(None)),
        Ok(Some(t)) => {
            let chars = chars_of(t.as_str());
            Evaluated::Value(ScalarValue::Int64(Some(chars.len() as i64)))
        },
    }
}

fn eval_abs(arg: &ScalarValue) -> (result: Evaluated)
    ensures
        result@ == abs_outcome(arg@),
{
    match read_integer(arg, FunctionKind::Abs) {
        Err(error) => Evaluated::Error(error),
        Ok(None) => Evaluated::Value(ScalarValue::Int64(None)),
        Ok(Some(v)) => {
            if v == i64::MIN {
                Evaluated::Error(EvalError::AbsOverflow)
            } else if v < 0 {
                Evaluated::Value(ScalarValue::Int64(Some(-v)))
            } else {
                Evaluated::Value(ScalarValue::Int64(Some(v)))
            }
        },
    }
}

fn eval_coalesce(args: &Row) -> (result: Evaluated)
    requires
        args@.len() > 0,
    ensures
        result@ == apply_outcome(FunctionKind::Coalesce, values::row_view(args@)),
{
    let ghost views = values::row_view(args@);
    let mut i: usize = 0;
    assert(views.skip(0) =~= views);
    while i < args.len()
        invariant
            i <= args@.len(),
            args@.len() > 0,
            views == values::row_view(args@),
            first_non_null(views) == first_non_null(views.skip(i as int)),
        decreases args@.len() - i,
    {
        if !args[i].is_null() {
            return Evaluated::Value(args[i].clone());
        }
        assert(views.skip(i as int).drop_first() =~= views.skip(i + 1));
        i = i + 1;
    }
    Evaluated::Value(null_like(&args[0]))
}

fn eval_nullif(left: &ScalarValue, right: &ScalarValue) -> (result: Evaluated)
    ensures
        result@ == apply_outcome(FunctionKind::NullIf, seq![left@, right@]),
{
    match super::scalar_equals(left, right) {
        Some(true) => Evaluated::Value(null_like(left)),
        _ => Evaluated::Value(left.clone()),
    }
}

fn eval_concat(args: &Row) -> (result: Evaluated)
    ensures
        result@ == concat_outcome(Seq::empty(), values::row_view(args@)),
{
    let ghost views = values::row_view(args@);
    let mut out: Vec<char> = Vec::new();
    let mut i: usize = 0;
    assert(views.skip(0) =~= views);
    while i < args.len()
        invariant
            i <= args@.len(),
            views == values::row_view(args@),
            concat_outcome(Seq::empty(), views) == concat_outcome(out@, views.skip(i as int)),
        decreases args@.len() - i,
    {
        assert(views.skip(i as int).drop_first() =~= views.skip(i + 1));
        match read_text(&args[i], FunctionKind::Concat) {
            Err(error) => {
                return Evaluated::Error(error);
            },
            Ok(None) => {
                return Evaluated::Value(ScalarValue::Utf8(None));
            },
            Ok(Some(piece)) => {
                push_text(&mut out, piece.as_str());
            },
        }
        i = i + 1;
    }
    Evaluated::Value(ScalarValue::Utf8(Some(string_of(out))))
}

fn eval_hour(arg: &ScalarValue) -> (result: Evaluated)
    ensures
        result@ == apply_outcome(FunctionKind::Hour, seq![arg@]),
{
    match read_timestamp(arg, FunctionKind::Hour) {
        Err(error) => Evaluated::Error(error),
        Ok(None) => Evaluated::Value(ScalarValue::Int64(None)),
        Ok(Some(millis)) => match utc_hour(millis) {
            Some(hour) => Evaluated::Value(ScalarValue::Int64(Some(hour as i64))),
            None => Evaluated::Value(ScalarValue::Int64(None)),
        },
    }
}

/// Turns a date pattern into chrono's notation.
pub fn normalize_date_format_pattern(pattern: &str) -> (normalized: String)
    ensures
        normalized@ == normalized_pattern(pattern@),
{
    proof {
        reveal_strlit("yyyy");
        reveal_strlit("MM");
        reveal_strlit("dd");
        reveal_strlit("HH");
        reveal_strlit("mm");
        reveal_strlit("ss");
    }
    let p0 = chars_of(pattern);
    let p1 = replace_chars(&p0, &chars_of("yyyy"), &chars_of("%Y"));
    let p2 = replace_chars(&p1, &chars_of("MM"), &chars_of("%m"));
    let p3 = replace_chars(&p2, &chars_of("dd"), &chars_of("%d"));
    let p4 = replace_chars(&p3, &chars_of("HH"), &chars_of("%H"));
    let p5 = replace_chars(&p4, &chars_of("mm"), &chars_of("%M"));
    let p6 = replace_chars(&p5, &chars_of("ss"), &chars_of("%S"));
    string_of(p6)
}

/// What formatting a date comes to once it is rendered.
pub fn eval_date_text(rendered: Option<String>) -> (result: Evaluated)
    ensures
        result@ == date_text_outcome(values::opt_text(rendered)),
{
    match rendered {
        Some(t) => Evaluated::Value(ScalarValue::Utf8(Some(t))),
        None => Evaluated::Panics,
    }
}

fn eval_date_format(timestamp: &ScalarValue, pattern: &ScalarValue) -> (result: Evaluated)
    ensures
        result@ == date_format_outcome(timestamp@, pattern@),
{
    let millis: i64 = match read_timestamp(timestamp, FunctionKind::DateFormat) {
        Err(error) => {
            return Evaluated::Error(error);
        },
        Ok(None) => {
            return Evaluated::Value(ScalarValue::Utf8(None));
        },
        Ok(Some(millis)) => millis,
    };
    match read_text(pattern, FunctionKind::DateFormat) {
        Err(error) => Evaluated::Error(error),
        Ok(None) => Evaluated::Value(ScalarValue::Utf8(None)),
        Ok(Some(p)) => {
            if millis < -8_334_601_228_800_000 || millis > 8_210_266_876_799_999 {
                return Evaluated::Value(ScalarValue::Utf8(None));
            }
            let normalized = normalize_date_format_pattern(p.as_str());
            eval_date_text(render_timestamp(millis, normalized.as_str()))
        },
    }
}

fn eval_regexp_extract(
    input: &ScalarValue,
    pattern: &ScalarValue,
    group: &ScalarValue,
) -> (result: Evaluated)
    ensures
        result@ == regexp_extract_outcome(input@, pattern@, group@),
{
    match read_text(input, FunctionKind::RegexpExtract) {
        Err(error) => Evaluated::Error(error),
        Ok(None) => Evaluated::Value(ScalarValue::Utf8(None)),
        Ok(Some(t)) => match read_text(pattern, FunctionKind::RegexpExtract) {
            Err(error) => Evaluated::Error(error),
            Ok(None) => Evaluated::Value(ScalarValue::Utf8(None)),
            Ok(Some(p)) => match read_integer(group, FunctionKind::RegexpExtract) {
                Err(error) => Evaluated::Error(error),
                Ok(None) => Evaluated::Value(ScalarValue::Utf8(None)),
                Ok(Some(g)) => {
                    if g < 0 {
                        return Evaluated::Value(ScalarValue::Utf8(None));
                    }
                    let captured = capture_group(p.as_str(), t.as_str(), g as usize);
                    Evaluated::Value(ScalarValue::Utf8(captured))
                },
            },
        },
    }
}

fn eval_split_index(
    input: &ScalarValue,
    delimiter: &ScalarValue,
    index: &ScalarValue,
) -> (result: Evaluated)
    ensures
        result@ == split_index_outcome(input@, delimiter@, index@),
{
    match read_text(input, FunctionKind::SplitIndex) {
        Err(error) => Evaluated::Error(error),
        Ok(None) => Evaluated::Value(ScalarValue::Utf8(None)),
        Ok(Some(t)) => match read_text(delimiter, FunctionKind::SplitIndex) {
            Err(error) => Evaluated::Error(error),
            Ok(None) => Evaluated::Value(ScalarValue::Utf8(None)),
            Ok(Some(d)) => match read_integer(index, FunctionKind::SplitIndex) {
                Err(error) => Evaluated::Error(error),
                Ok(None) => Evaluated::Value(ScalarValue::Utf8(None)),
                Ok(Some(i)) => {
                    let part = chars_of(d.as_str());
                    if i < 0 || part.len() == 0 {
                        return Evaluated::Value(ScalarValue::Utf8(None));
                    }
                    let pieces = split_chars(&chars_of(t.as_str()), &part);
                    if i as u64 >= pieces.len() as u64 {
                        return Evaluated::Value(ScalarValue::Utf8(None));
                    }
                    let piece = &pieces[i as usize];
                    let copy = text::sub_chars(piece, 0, piece.len());
                    assert(copy@ =~= piece@);
                    Evaluated::Value(ScalarValue::Utf8(Some(string_of(copy))))
                },
            },
        },
    }
}

fn eval_count_char(input: &ScalarValue, needle: &ScalarValue) -> (result: Evaluated)
    ensures
        result@ == count_char_outcome(input@, needle@),
{
    match read_text(input, FunctionKind::CountChar) {
        Err(error) => Evaluated::Error(error),
        Ok(None) => Evaluated::Value(ScalarValue::Int64(None)),
        Ok(Some(t)) => match read_text(needle, FunctionKind::CountChar) {
            Err(error) => Evaluated::Error(error),
            Ok(None) => Evaluated::Value(ScalarValue::Int64(None)),
            Ok(Some(n)) => {
                let part = chars_of(n.as_str());
                if part.len() == 0 {
                    return Evaluated::Value(ScalarValue::Int64(Some(0)));
                }
                let pieces = split_chars(&chars_of(t.as_str()), &part);
                Evaluated::Value(ScalarValue::Int64(Some((pieces.len() - 1) as i64)))
            },
        },
    }
}

fn count_accepted(kind: FunctionKind, count: usize) -> (accepted: bool)
    ensures
        accepted == accepts_count(kind, count as nat),
{
    match kind {
        FunctionKind::Coalesce | FunctionKind::Concat => count > 0,
        FunctionKind::ProcTime => count == 0,
        FunctionKind::NullIf | FunctionKind::DateFormat | FunctionKind::CountChar => count == 2,
        FunctionKind::RegexpExtract | FunctionKind::SplitIndex => count == 3,
        _ => count == 1,
    }
}

/// Calls a scalar function by name.
pub fn eval_scalar_function(name: &str, args: &Row) -> (result: Evaluated)
    ensures
        result@ == function_outcome(name@, values::row_view(args@)),
{
    let lowered = to_ascii_lower(name);
    let kind: FunctionKind = match find_function(lowered.as_str()) {
        Some(kind) => kind,
        None => {
            return Evaluated::Error(EvalError::UnsupportedFunction);
        },
    };
    if !count_accepted(kind, args.len()) {
        return Evaluated::Error(EvalError::ArgumentCount(kind, args.len()));
    }
    match kind {
        FunctionKind::Lower => eval_case_change(&args[0], false),
        FunctionKind::Upper => eval_case_change(&args[0], true),
        FunctionKind::Length => eval_length(&args[0]),
        FunctionKind::Abs => eval_abs(&args[0]),
        FunctionKind::Coalesce => eval_coalesce(args),
        FunctionKind::NullIf => eval_nullif(&args[0], &args[1]),
        FunctionKind::Concat => eval_concat(args),
        FunctionKind::Hour => eval_hour(&args[0]),
        FunctionKind::DateFormat => eval_date_format(&args[0], &args[1]),
        FunctionKind::RegexpExtract => eval_regexp_extract(&args[0], &args[1], &args[2]),
        FunctionKind::SplitIndex => eval_split_index(&args[0], &args[1], &args[2]),
        FunctionKind::CountChar => eval_count_char(&args[0], &args[1]),
        FunctionKind::ProcTime => Evaluated::Value(ScalarValue::TimestampMillisecond(None, None)),
    }
}

} // verus!
