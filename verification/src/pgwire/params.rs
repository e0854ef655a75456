//! Values that a client binds to the parameters of a statement.

use chrono::DateTime;
use vstd::prelude::*;

use super::messages::{BOOL_OID, FLOAT8_OID, INT8_OID, TEXT_OID, TIMESTAMPTZ_OID};
use crate::text;
use crate::text::{
    chars_of, contains_char, parse_i64, push_signed_decimal, push_text, replace_chars, same_text,
    string_of, to_ascii_lower, trim,
};
use crate::values;

verus! {

/// Identifier of the type of sixteen bit integers.
pub const INT2_OID: u32 = 21;

/// Identifier of the type of thirty-two bit integers.
pub const INT4_OID: u32 = 23;

/// Identifier of the type of single precision numbers.
pub const FLOAT4_OID: u32 = 700;

/// Identifier of the type of timestamps without a time zone.
pub const TIMESTAMP_OID: u32 = 1114;

/// Identifier of the type of decimal numbers.
pub const NUMERIC_OID: u32 = 1700;

/// A value bound to a parameter. A floating point number is held by its decimal text.
#[derive(Debug, PartialEq, Eq)]
pub enum BoundParam {
    Null,
    Int8(i64),
    Float8(String),
    Text(String),
    Bool(bool),
    Timestamp(i64),
}

/// What a bound value stands for.
pub enum ParamView {
    Null,
    Int8(i64),
    Float8(Seq<char>),
    Text(Seq<char>),
    Bool(bool),
    Timestamp(i64),
}

impl View for BoundParam {
    type V = ParamView;

    open spec fn view(&self) -> ParamView {
        match *self {
            BoundParam::Null => ParamView::Null,
            BoundParam::Int8(value) => ParamView::Int8(value),
            BoundParam::Float8(value) => ParamView::Float8(value@),
            BoundParam::Text(value) => ParamView::Text(value@),
            BoundParam::Bool(value) => ParamView::Bool(value),
            BoundParam::Timestamp(value) => ParamView::Timestamp(value),
        }
    }
}

impl Clone for BoundParam {
    fn clone(&self) -> (copy: Self)
        ensures
            copy@ == self@,
    {
        match self {
            BoundParam::Null => BoundParam::Null,
            BoundParam::Int8(value) => BoundParam::Int8(*value),
            BoundParam::Float8(value) => BoundParam::Float8(value.clone()),
            BoundParam::Text(value) => BoundParam::Text(value.clone()),
            BoundParam::Bool(value) => BoundParam::Bool(*value),
            BoundParam::Timestamp(value) => BoundParam::Timestamp(*value),
        }
    }
}

/// What a text was meant to be.
#[derive(Clone, Copy, Debug, PartialEq, Eq, Structural)]
pub enum ParamKind {
    Integer,
    Float,
    Boolean,
    Timestamp,
    Numeric,
}

/// The milliseconds since the epoch that an RFC 3339 text stands for.
pub uninterp spec fn rfc3339_millis(text: Seq<char>) -> Option<i64>;

/// `DateTime::parse_from_rfc3339` and `DateTime::timestamp_millis`: the same text always gives
/// the same moment, or none where the text is not of that form. Which moment that is, is left to
/// the name of the result.
#[verifier::external_body]
fn rfc3339_moment(text: &str) -> (millis: Option<i64>)
    ensures
        millis == rfc3339_millis(text@),
{
    DateTime::parse_from_rfc3339(text).ok().map(|moment| moment.timestamp_millis())
}

/// The milliseconds since the epoch that an RFC 3339 text stands for.
pub fn parse_timestamp_millis(value: &str) -> (millis: Option<i64>)
    ensures
        millis == rfc3339_millis(value@),
{
    rfc3339_moment(value)
}

/// The truth value that a text stands for.
pub open spec fn bool_text(value: Seq<char>) -> Option<bool> {
    let lowered = text::ascii_lowered(value);
    if lowered == "true"@ || lowered == "t"@ {
        Some(true)
    } else if lowered == "false"@ || lowered == "f"@ {
        Some(false)
    } else {
        None
    }
}

/// The truth value that a text stands for.
pub fn parse_bool_literal(value: &str) -> (found: Option<bool>)
    ensures
        found == bool_text(value@),
{
    let lowered = to_ascii_lower(value);
    if same_text(lowered.as_str(), "true") || same_text(lowered.as_str(), "t") {
        Some(true)
    } else if same_text(lowered.as_str(), "false") || same_text(lowered.as_str(), "f") {
        Some(false)
    } else {
        None
    }
}

/// Whether a text is an optional sign and at least one digit.
pub fn is_integer_literal(value: &str) -> (found: bool)
    ensures
        found == (text::integer_text(value@) is Some),
{
    let chars = chars_of(value);
    if chars.len() == 0 {
        return false;
    }
    let from: usize = if chars[0] == '+' || chars[0] == '-' {
        1
    } else {
        0
    };
    if chars.len() == from {
        return false;
    }
    let ghost digits = chars@.skip(from as int);
    assert(chars@.skip(0) =~= chars@);
    let mut i: usize = from;
    while i < chars.len()
        invariant
            from <= i <= chars@.len(),
            chars@ == value@,
            chars@.len() > from,
            from == (if chars@[0] == '+' || chars@[0] == '-' {
                1int
            } else {
                0
            }),
            from == 0 ==> digits == value@,
            digits == chars@.skip(from as int),
            forall|j: int| 0 <= j < i - from ==> text::ascii_digit(#[trigger] digits[j]),
        decreases chars@.len() - i,
    {
        let c: char = chars[i];
        assert(c == digits[i - from]);
        if !(c >= '0' && c <= '9') {
            assert(!text::all_digits(digits));
            return false;
        }
        i = i + 1;
    }
    assert(text::all_digits(digits));
    true
}

/// Whether a text that stands for a floating point number is written as one.
pub open spec fn float_form(value: Seq<char>) -> bool {
    value.contains('.') || value.contains('e') || value.contains('E')
}

/// Whether a text is written as a floating point number; `reads` tells whether it stands for one.
pub fn is_float_literal(value: &str, reads: bool) -> (found: bool)
    ensures
        found == (float_form(value@) && reads),
{
    reads && (contains_char(value, '.') || contains_char(value, 'e') || contains_char(value, 'E'))
}

/// The value and type of a text whose type is not known. `float` is the floating point number
/// that the trimmed text stands for, as its decimal text, and `millis` the moment.
pub open spec fn inferred(value: Seq<char>, float: Option<Seq<char>>, millis: Option<i64>) -> (
    ParamView,
    u32,
) {
    let inner = text::trimmed(value);
    match (text::i64_text(inner), float, bool_text(inner), millis) {
        (Some(parsed), _, _, _) => (ParamView::Int8(parsed), INT8_OID),
        (None, Some(shown), _, _) if float_form(inner) => (
            ParamView::Float8(shown),
            FLOAT8_OID,
        ),
        (None, _, Some(parsed), _) => (ParamView::Bool(parsed), BOOL_OID),
        (None, _, None, Some(moment)) => (ParamView::Timestamp(moment), TIMESTAMPTZ_OID),
        (None, _, None, None) => (ParamView::Text(value), TEXT_OID),
    }
}

/// The value and type of a text whose type is not known, with what it stands for as a floating
/// point number and as a moment.
pub fn infer_with(value: &str, float: &Option<String>, millis: Option<i64>) -> (result: (
    BoundParam,
    u32,
))
    ensures
        (result.0@, result.1) == inferred(value@, values::opt_text(*float), millis),
{
    let inner = trim(value);
    if is_integer_literal(inner.as_str()) {
        if let Some(parsed) = parse_i64(inner.as_str()) {
            return (BoundParam::Int8(parsed), INT8_OID);
        }
    }
    if let Some(shown) = float {
        if is_float_literal(inner.as_str(), true) {
            return (BoundParam::Float8(shown.clone()), FLOAT8_OID);
        }
    }
    if let Some(parsed) = parse_bool_literal(inner.as_str()) {
        return (BoundParam::Bool(parsed), BOOL_OID);
    }
    if let Some(moment) = millis {
        return (BoundParam::Timestamp(moment), TIMESTAMPTZ_OID);
    }
    (BoundParam::Text(String::from_str(value)), TEXT_OID)
}

/// The value and type of a text whose type is not known. `float` is the floating point number
/// that the trimmed text stands for, as its decimal text.
pub fn infer_bound_param(value: &str, float: &Option<String>) -> (result: (BoundParam, u32))
    ensures
        (result.0@, result.1) == inferred(
            value@,
            values::opt_text(*float),
            rfc3339_millis(text::trimmed(value@)),
        ),
{
    let inner = trim(value);
    let millis = parse_timestamp_millis(inner.as_str());
    infer_with(value, float, millis)
}

/// The value and type of a text for a parameter of the given type, or what the text should have
/// been. `float` is the floating point number that the trimmed text stands for, as its decimal
/// text, and `millis` the moment.
pub open spec fn converted(
    value: Seq<char>,
    type_oid: u32,
    float: Option<Seq<char>>,
    millis: Option<i64>,
) -> Result<(ParamView, u32), ParamKind> {
    let inner = text::trimmed(value);
    if type_oid == 0 {
        Ok(inferred(value, float, millis))
    } else if type_oid == INT8_OID || type_oid == INT4_OID || type_oid == INT2_OID {
        match text::i64_text(inner) {
            Some(parsed) => Ok((ParamView::Int8(parsed), type_oid)),
            None => Err(ParamKind::Integer),
        }
    } else if type_oid == FLOAT8_OID || type_oid == FLOAT4_OID {
        match float {
            Some(shown) => Ok((ParamView::Float8(shown), type_oid)),
            None => Err(ParamKind::Float),
        }
    } else if type_oid == BOOL_OID {
        match bool_text(inner) {
            Some(parsed) => Ok((ParamView::Bool(parsed), type_oid)),
            None => Err(ParamKind::Boolean),
        }
    } else if type_oid == TIMESTAMPTZ_OID || type_oid == TIMESTAMP_OID {
        match millis {
            Some(moment) => Ok((ParamView::Timestamp(moment), type_oid)),
            None => Err(ParamKind::Timestamp),
        }
    } else if type_oid == NUMERIC_OID {
        match float {
            Some(shown) => Ok((ParamView::Float8(shown), type_oid)),
            None => Err(ParamKind::Numeric),
        }
    } else {
        Ok((ParamView::Text(value), type_oid))
    }
}

/// A conversion as mathematical values.
pub open spec fn conversion(result: Result<(BoundParam, u32), ParamKind>) -> Result<
    (ParamView, u32),
    ParamKind,
> {
    match result {
        Ok((param, type_oid)) => Ok((param@, type_oid)),
        Err(kind) => Err(kind),
    }
}

/// The value and type of a text for a parameter of the given type, with what the text stands for
/// as a floating point number and as a moment.
pub fn convert_with(
    value: &str,
    type_oid: u32,
    float: &Option<String>,
    millis: Option<i64>,
) -> (result: Result<(BoundParam, u32), ParamKind>)
    ensures
        conversion(result) == converted(value@, type_oid, values::opt_text(*float), millis),
{
    if type_oid == 0 {
        return Ok(infer_with(value, float, millis));
    }
    let inner = trim(value);
    if type_oid == INT8_OID || type_oid == INT4_OID || type_oid == INT2_OID {
        match parse_i64(inner.as_str()) {
            Some(parsed) => Ok((BoundParam::Int8(parsed), type_oid)),
            None => Err(ParamKind::Integer),
        }
    } else if type_oid == FLOAT8_OID || type_oid == FLOAT4_OID {
        match float {
            Some(shown) => Ok((BoundParam::Float8(shown.clone()), type_oid)),
            None => Err(ParamKind::Float),
        }
    } else if type_oid == BOOL_OID {
        match parse_bool_literal(inner.as_str()) {
            Some(parsed) => Ok((BoundParam::Bool(parsed), type_oid)),
            None => Err(ParamKind::Boolean),
        }
    } else if type_oid == TIMESTAMPTZ_OID || type_oid == TIMESTAMP_OID {
        match millis {
            Some(moment) => Ok((BoundParam::Timestamp(moment), type_oid)),
            None => Err(ParamKind::Timestamp),
        }
    } else if type_oid == NUMERIC_OID {
        match float {
            Some(shown) => Ok((BoundParam::Float8(shown.clone()), type_oid)),
            None => Err(ParamKind::Numeric),
        }
    } else {
        Ok((BoundParam::Text(String::from_str(value)), type_oid))
    }
}

/// The value and type of a text for a parameter of the given type. `float` is the floating point
/// number that the trimmed text stands for, as its decimal text.
pub fn convert_text_param(value: &str, type_oid: u32, float: &Option<String>) -> (result: Result<
    (BoundParam, u32),
    ParamKind,
>)
    ensures
        conversion(result) == converted(
            value@,
            type_oid,
            values::opt_text(*float),
            rfc3339_millis(text::trimmed(value@)),
        ),
{
    let inner = trim(value);
    let millis = parse_timestamp_millis(inner.as_str());
    convert_with(value, type_oid, float, millis)
}

/// A text with each quote doubled.
pub open spec fn escaped(value: Seq<char>) -> Seq<char> {
    text::replaced_from(value, seq!['\''], seq!['\'', '\''], 0)
}

/// A text with each quote doubled.
pub fn escape_sql_literal(value: &str) -> (out: String)
    ensures
        out@ == escaped(value@),
{
    let chars = chars_of(value);
    let quote: Vec<char> = vec!['\''];
    let doubled: Vec<char> = vec!['\'', '\''];
    assert(quote@ =~= seq!['\'']);
    assert(doubled@ =~= seq!['\'', '\'']);
    string_of(replace_chars(&chars, &quote, &doubled))
}

/// A bound value as it stands in a statement.
pub open spec fn literal(param: ParamView) -> Seq<char> {
    match param {
        ParamView::Null => "NULL"@,
        ParamView::Int8(value) => text::signed_decimal(value as int),
        ParamView::Float8(shown) => shown,
        ParamView::Text(value) => seq!['\''] + escaped(value) + seq!['\''],
        ParamView::Bool(value) => if value {
            "TRUE"@
        } else {
            "FALSE"@
        },
        ParamView::Timestamp(millis) => "TO_TIMESTAMP("@ + text::signed_decimal(millis as int)
            + "/1000.0)"@,
    }
}

/// A bound value as it stands in a statement.
pub fn encode_literal(param: &BoundParam) -> (out: String)
    ensures
        out@ == literal(param@),
{
    match param {
        BoundParam::Null => String::from_str("NULL"),
        BoundParam::Int8(value) => {
            let mut chars: Vec<char> = Vec::new();
            push_signed_decimal(&mut chars, *value);
            assert(chars@ =~= literal(param@));
            string_of(chars)
        },
        BoundParam::Float8(shown) => shown.clone(),
        BoundParam::Text(value) => {
            let mut chars: Vec<char> = vec!['\''];
            let inner = escape_sql_literal(value.as_str());
            push_text(&mut chars, inner.as_str());
            chars.push('\'');
            assert(chars@ =~= literal(param@));
            string_of(chars)
        },
        BoundParam::Bool(value) => if *value {
            String::from_str("TRUE")
        } else {
            String::from_str("FALSE")
        },
        BoundParam::Timestamp(millis) => {
            let mut chars: Vec<char> = Vec::new();
            push_text(&mut chars, "TO_TIMESTAMP(");
            push_signed_decimal(&mut chars, *millis);
            push_text(&mut chars, "/1000.0)");
            assert(chars@ =~= literal(param@));
            string_of(chars)
        },
    }
}

/// What stands in a text literal of a statement from behind its opening quote on, and what
/// follows the literal: two quotes stand for one, and a single quote ends it.
pub open spec fn read_literal(s: Seq<char>) -> (Seq<char>, Seq<char>)
    decreases s.len(),
{
    if s.len() == 0 {
        (Seq::empty(), Seq::empty())
    } else if s[0] != '\'' {
        let (inner, rest) = read_literal(s.skip(1));
        (seq![s[0]] + inner, rest)
    } else if s.len() > 1 && s[1] == '\'' {
        let (inner, rest) = read_literal(s.skip(2));
        (seq!['\''] + inner, rest)
    } else {
        (Seq::empty(), s.skip(1))
    }
}

/// What is found from a position on stands there or behind it.
proof fn lemma_found_behind(value: Seq<char>, part: Seq<char>, from: int)
    ensures
        text::find_from(value, part, from) matches Some(at) ==> from <= at && at + part.len()
            <= value.len(),
    decreases value.len() + 1 - from,
{
    if from >= 0 && from + part.len() <= value.len() && !text::occurs_at(value, part, from) {
        lemma_found_behind(value, part, from + 1);
    }
}

/// Doubling quotes goes character by character.
proof fn lemma_escaped_step(value: Seq<char>, from: int)
    requires
        0 <= from <= value.len(),
    ensures
        ({
            let quote = seq!['\''];
            let doubled = seq!['\'', '\''];
            let here = text::replaced_from(value, quote, doubled, from);
            if from == value.len() {
                here == Seq::<char>::empty()
            } else if value[from] == '\'' {
                here == doubled + text::replaced_from(value, quote, doubled, from + 1)
            } else {
                here == seq![value[from]] + text::replaced_from(value, quote, doubled, from + 1)
            }
        }),
{
    let quote = seq!['\''];
    let doubled = seq!['\'', '\''];
    reveal_with_fuel(text::find_from, 2);
    reveal_with_fuel(text::replaced_from, 2);
    let here = text::replaced_from(value, quote, doubled, from);
    if from < value.len() {
        assert(value.subrange(from, from + 1) =~= seq![value[from]]);
        let next = text::replaced_from(value, quote, doubled, from + 1);
        if value[from] == '\'' {
            assert(value.subrange(from, from + 1) =~= quote);
            assert(text::find_from(value, quote, from) == Some(from));
            assert(here =~= doubled + next);
        } else {
            assert(value.subrange(from, from + 1)[0] == value[from]);
            let found = text::find_from(value, quote, from + 1);
            assert(text::find_from(value, quote, from) == found);
            lemma_found_behind(value, quote, from + 1);
            match found {
                Some(at) => {
                    assert(value.subrange(from, at) =~= seq![value[from]] + value.subrange(
                        from + 1,
                        at,
                    ));
                    assert(here =~= seq![value[from]] + next);
                },
                None => {
                    assert(value.skip(from) =~= seq![value[from]] + value.skip(from + 1));
                },
            }
        }
    } else {
        assert(here =~= Seq::<char>::empty());
    }
}

proof fn lemma_escaped_is_read_back(value: Seq<char>, from: int, rest: Seq<char>)
    requires
        0 <= from <= value.len(),
        rest.len() == 0 || rest[0] != '\'',
    ensures
        read_literal(
            text::replaced_from(value, seq!['\''], seq!['\'', '\''], from) + seq!['\''] + rest,
        ) == (value.skip(from), rest),
    decreases value.len() - from,
{
    let quote = seq!['\''];
    let doubled = seq!['\'', '\''];
    lemma_escaped_step(value, from);
    let whole = text::replaced_from(value, quote, doubled, from) + quote + rest;
    if from == value.len() {
        assert(whole =~= quote + rest);
        assert(whole.skip(1) =~= rest);
        assert(value.skip(from) =~= Seq::<char>::empty());
    } else {
        lemma_escaped_is_read_back(value, from + 1, rest);
        let next = text::replaced_from(value, quote, doubled, from + 1) + quote + rest;
        assert(seq![value[from]] + value.skip(from + 1) =~= value.skip(from));
        if value[from] == '\'' {
            assert(whole =~= doubled + next);
            assert(whole.skip(2) =~= next);
        } else {
            assert(whole =~= seq![value[from]] + next);
            assert(whole.skip(1) =~= next);
        }
    }
}

/// A text that is bound to a parameter is read back from the statement as it was, whatever quotes
/// it holds, and what follows it stays outside of the literal.
pub proof fn law_bound_text_is_read_back(value: Seq<char>, rest: Seq<char>)
    requires
        rest.len() == 0 || rest[0] != '\'',
    ensures
        (literal(ParamView::Text(value)) + rest)[0] == '\'',
        read_literal((literal(ParamView::Text(value)) + rest).skip(1)) == (value, rest),
{
    lemma_escaped_is_read_back(value, 0, rest);
    assert((literal(ParamView::Text(value)) + rest).skip(1) =~= escaped(value) + seq!['\'']
        + rest);
    assert(value.skip(0) =~= value);
}

/// A text is a word, with each letter small or capital.
pub open spec fn is_word(value: Seq<char>, small: Seq<char>, capital: Seq<char>) -> bool {
    &&& value.len() == small.len()
    &&& forall|i: int|
        0 <= i < value.len() ==> (#[trigger] value[i]) == small[i] || value[i] == capital[i]
}

proof fn lemma_word(value: Seq<char>, small: Seq<char>, capital: Seq<char>)
    requires
        small.len() == capital.len(),
        forall|i: int|
            0 <= i < small.len() ==> 'a' <= #[trigger] small[i] <= 'z' && capital[i] as int
                == small[i] as int - 32,
    ensures
        (text::ascii_lowered(value) == small) == is_word(value, small, capital),
{
    let lowered = text::ascii_lowered(value);
    if is_word(value, small, capital) {
        assert forall|i: int| 0 <= i < value.len() implies lowered[i] == small[i] by {
            assert(value[i] == small[i] || value[i] == capital[i]);
            text::law_letter_case(value[i]);
        }
        assert(lowered =~= small);
    }
    if lowered == small {
        assert forall|i: int| 0 <= i < value.len() implies (#[trigger] value[i]) == small[i]
            || value[i] == capital[i] by {
            assert(lowered[i] == small[i]);
            text::law_letter_case(value[i]);
        }
    }
}

/// The words for the truth values, in any case, and their first letters stand for them: `true` and
/// `t` for the one, `false` and `f` for the other. No other text does.
pub proof fn law_words_for_truth_values(value: Seq<char>)
    ensures
        bool_text(value) == Some(true) <==> is_word(
            value,
            seq!['t', 'r', 'u', 'e'],
            seq!['T', 'R', 'U', 'E'],
        ) || is_word(value, seq!['t'], seq!['T']),
        bool_text(value) == Some(false) <==> is_word(
            value,
            seq!['f', 'a', 'l', 's', 'e'],
            seq!['F', 'A', 'L', 'S', 'E'],
        ) || is_word(value, seq!['f'], seq!['F']),
{
    reveal_strlit("true");
    reveal_strlit("t");
    reveal_strlit("false");
    reveal_strlit("f");
    assert("true"@ =~= seq!['t', 'r', 'u', 'e']);
    assert("t"@ =~= seq!['t']);
    assert("false"@ =~= seq!['f', 'a', 'l', 's', 'e']);
    assert("f"@ =~= seq!['f']);
    lemma_word(value, seq!['t', 'r', 'u', 'e'], seq!['T', 'R', 'U', 'E']);
    lemma_word(value, seq!['t'], seq!['T']);
    lemma_word(value, seq!['f', 'a', 'l', 's', 'e'], seq!['F', 'A', 'L', 'S', 'E']);
    lemma_word(value, seq!['f'], seq!['F']);
    let lowered = text::ascii_lowered(value);
    assert(lowered == "true"@ ==> lowered.len() == 4);
    assert(lowered == "false"@ ==> lowered.len() == 5);
    assert(lowered == "t"@ ==> lowered[0] == 't');
    assert(lowered == "f"@ ==> lowered[0] == 'f');
}

/// A bound truth value is read back: its literal in a statement, and the first letter of that,
/// bound as a text to a parameter for truth values, gives the truth value again.
pub proof fn law_bound_truth_value_is_read_back(
    value: bool,
    float: Option<Seq<char>>,
    millis: Option<i64>,
)
    ensures
        converted(literal(ParamView::Bool(value)), BOOL_OID, float, millis) == Ok::<
            (ParamView, u32),
            ParamKind,
        >((ParamView::Bool(value), BOOL_OID)),
        converted(literal(ParamView::Bool(value)).take(1), BOOL_OID, float, millis) == Ok::<
            (ParamView, u32),
            ParamKind,
        >((ParamView::Bool(value), BOOL_OID)),
        literal(ParamView::Bool(true)) != literal(ParamView::Bool(false)),
{
    reveal_strlit("TRUE");
    reveal_strlit("FALSE");
    let shown = literal(ParamView::Bool(value));
    let first = shown.take(1);
    law_words_for_truth_values(shown);
    law_words_for_truth_values(first);
    text::law_trimmed_text_stays(shown);
    text::law_trimmed_text_stays(first);
    assert(literal(ParamView::Bool(true)).len() == 4);
    assert(literal(ParamView::Bool(false)).len() == 5);
    if value {
        assert(is_word(shown, seq!['t', 'r', 'u', 'e'], seq!['T', 'R', 'U', 'E']));
        assert(is_word(first, seq!['t'], seq!['T']));
    } else {
        assert(is_word(shown, seq!['f', 'a', 'l', 's', 'e'], seq!['F', 'A', 'L', 'S', 'E']));
        assert(is_word(first, seq!['f'], seq!['F']));
    }
}

/// A bound integer is read back: its literal in a statement, bound as a text to a parameter for
/// integers of any size, or of a type that is not known, gives the integer again, so that different
/// integers have different literals.
pub proof fn law_bound_integer_is_read_back(
    value: i64,
    type_oid: u32,
    float: Option<Seq<char>>,
    millis: Option<i64>,
)
    requires
        type_oid == INT8_OID || type_oid == INT4_OID || type_oid == INT2_OID || type_oid == 0,
    ensures
        converted(literal(ParamView::Int8(value)), type_oid, float, millis) == Ok::<
            (ParamView, u32),
            ParamKind,
        >(
            (
                ParamView::Int8(value),
                if type_oid == 0 {
                    INT8_OID
                } else {
                    type_oid
                },
            ),
        ),
{
    text::law_decimal_round_trip(value);
    text::lemma_decimal_is_trimmed(value as int);
}

/// What stands between the brackets of the literal of a bound moment, before the division that
/// turns milliseconds into seconds, is the decimal form of its milliseconds. A bound null is
/// `NULL`, and a bound number the text it was bound as.
pub proof fn law_bound_moment_is_read_back(millis: i64, shown: Seq<char>)
    ensures
        ({
            let whole = literal(ParamView::Timestamp(millis));
            let opening = "TO_TIMESTAMP("@;
            let closing = "/1000.0)"@;
            &&& whole.len() > opening.len() + closing.len()
            &&& whole.take(opening.len() as int) == opening
            &&& whole.skip(whole.len() - closing.len()) == closing
            &&& text::i64_text(
                whole.subrange(opening.len() as int, whole.len() - closing.len()),
            ) == Some(millis)
        }),
        literal(ParamView::Null) == "NULL"@,
        literal(ParamView::Float8(shown)) == shown,
{
    let opening = "TO_TIMESTAMP("@;
    let closing = "/1000.0)"@;
    let inner = text::signed_decimal(millis as int);
    let whole = literal(ParamView::Timestamp(millis));
    text::law_decimal_round_trip(millis);
    assert(whole.take(opening.len() as int) =~= opening);
    assert(whole.skip(whole.len() - closing.len()) =~= closing);
    assert(whole.subrange(opening.len() as int, whole.len() - closing.len()) =~= inner);
    if inner.len() == 0 {
        assert(text::integer_text(inner) is None);
    }
}

/// A text whose type is not known has a type with which it is converted to the same value.
pub proof fn law_inferred_type_gives_the_same_value(
    value: Seq<char>,
    float: Option<Seq<char>>,
    millis: Option<i64>,
)
    ensures
        ({
            let (param, type_oid) = inferred(value, float, millis);
            &&& type_oid != 0
            &&& converted(value, type_oid, float, millis) == Ok::<(ParamView, u32), ParamKind>(
                (param, type_oid),
            )
            &&& converted(value, 0, float, millis) == Ok::<(ParamView, u32), ParamKind>(
                (param, type_oid),
            )
        }),
{
}

/// What the type of a parameter makes of a text: a value of that type, told with the type, or what
/// the text should have been. Only a type that none of these is takes every text as it is.
pub proof fn law_bound_value_has_the_type_asked_for(
    value: Seq<char>,
    type_oid: u32,
    float: Option<Seq<char>>,
    millis: Option<i64>,
)
    requires
        type_oid != 0,
    ensures
        ({
            let result = converted(value, type_oid, float, millis);
            let integer = type_oid == 20 || type_oid == 23 || type_oid == 21;
            let number = type_oid == 701 || type_oid == 700;
            let moment = type_oid == 1184 || type_oid == 1114;
            &&& result matches Ok((param, told)) ==> told == type_oid
            &&& integer ==> match result {
                Ok((param, _)) => param matches ParamView::Int8(v) && text::integer_text(
                    text::trimmed(value),
                ) == Some(v as int),
                Err(kind) => kind is Integer && text::i64_text(text::trimmed(value)) is None,
            }
            &&& number ==> match result {
                Ok((param, _)) => param matches ParamView::Float8(shown) && float == Some(shown),
                Err(kind) => kind is Float && float is None,
            }
            &&& type_oid == 16 ==> match result {
                Ok((param, _)) => param is Bool && bool_text(text::trimmed(value)) == Some(
                    param == ParamView::Bool(true),
                ),
                Err(kind) => kind is Boolean && bool_text(text::trimmed(value)) is None,
            }
            &&& moment ==> match result {
                Ok((param, _)) => param matches ParamView::Timestamp(at) && millis == Some(at),
                Err(kind) => kind is Timestamp && millis is None,
            }
            &&& type_oid == 1700 ==> match result {
                Ok((param, _)) => param matches ParamView::Float8(shown) && float == Some(shown),
                Err(kind) => kind is Numeric && float is None,
            }
            &&& !integer && !number && !moment && type_oid != 16 && type_oid != 1700 ==> result
                == Ok::<(ParamView, u32), ParamKind>((ParamView::Text(value), type_oid))
        }),
{
}

/// What a text without a type is taken for: an integer before all else, then a number with a point
/// or an exponent, a truth value, a moment, and otherwise a text, with the whitespace around it.
pub proof fn law_inference_order(value: Seq<char>, float: Option<Seq<char>>, millis: Option<i64>)
    ensures
        ({
            let (param, type_oid) = inferred(value, float, millis);
            let inner = text::trimmed(value);
            let marked = exists|i: int|
                0 <= i < inner.len() && ((#[trigger] inner[i]) == '.' || inner[i] == 'e' || inner[i]
                    == 'E');
            &&& (param is Int8) == (text::i64_text(inner) is Some)
            &&& (param is Float8) == (!(param is Int8) && float is Some && marked)
            &&& param is Bool ==> !(text::i64_text(inner) is Some)
            &&& (param is Timestamp) == (text::i64_text(inner) is None && !(float is Some && marked)
                && bool_text(inner) is None && millis is Some)
            &&& param is Text ==> param == ParamView::Text(value) && millis is None
            &&& !(param is Null)
        }),
{
    let inner = text::trimmed(value);
    if float_form(inner) {
        if inner.contains('.') {
            let i = choose|i: int| 0 <= i < inner.len() && inner[i] == '.';
            assert(inner[i] == '.');
        } else if inner.contains('e') {
            let i = choose|i: int| 0 <= i < inner.len() && inner[i] == 'e';
            assert(inner[i] == 'e');
        } else {
            let i = choose|i: int| 0 <= i < inner.len() && inner[i] == 'E';
            assert(inner[i] == 'E');
        }
    }
}

} // verus!
