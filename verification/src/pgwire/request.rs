//! The requests of a client, as they are read from its messages.

use vstd::prelude::*;
use vstd::utf8::*;

use super::cursor;
use super::cursor::{CursorError, MessageCursor};
use super::messages::TEXT_OID;
use super::params;
use super::params::{convert_text_param, BoundParam, ParamKind, ParamView};
use super::sql::PlaceholderError;
use crate::encoding::utf8_text;
use crate::text;
use crate::values;

verus! {

/// The parts of the messages of a client.
#[derive(Clone, Copy, Debug, PartialEq, Eq, Structural)]
pub enum MessagePart {
    ParseStatement,
    ParseSql,
    ParseParameterCount,
    ParseParameterTypes,
    BindPortal,
    BindStatement,
    BindFormatCount,
    BindFormats,
    BindParameterCount,
    BindParameterLength,
    BindParameterValue,
    BindResultFormatCount,
    BindResultFormats,
    DescribeVariant,
    DescribeName,
    ExecutePortal,
    ExecuteRowLimit,
    CloseVariant,
    CloseName,
}

/// Why a request of a client is refused.
#[derive(Debug, PartialEq, Eq)]
pub enum RequestError {
    /// A part of the message is missing or cannot be read.
    Malformed(MessagePart, CursorError),
    /// A count is negative.
    NegativeCount(MessagePart, i16),
    /// The length of a parameter is below minus one.
    NegativeLength(i32),
    /// A parameter is given in binary form.
    BinaryParameter,
    /// A parameter is not valid UTF-8.
    ParameterNotUtf8(Vec<u8>),
    /// A parameter is not what its type asks for.
    InvalidParameter(String, ParamKind),
    /// A parameter in the statement cannot be replaced by a value.
    Placeholder(PlaceholderError),
    /// The object of a message is neither a statement nor a portal.
    UnknownVariant(MessagePart, u8),
    /// There is no such statement.
    StatementNotFound(String),
    /// There is no statement of the first name for the portal of the second name.
    PortalStatementNotFound(String, String),
    /// There is no such portal.
    PortalNotFound(String),
    /// The statement has no schema.
    SchemaMissing,
    /// A statement that asks for changes takes no parameters.
    TailParameters,
    /// More columns or parameters than a message can tell.
    TooMany,
}

/// What an error stands for.
pub enum ErrorView {
    Malformed(MessagePart, CursorError),
    NegativeCount(MessagePart, i16),
    NegativeLength(i32),
    BinaryParameter,
    ParameterNotUtf8(Seq<u8>),
    InvalidParameter(Seq<char>, ParamKind),
    Placeholder(PlaceholderError),
    UnknownVariant(MessagePart, u8),
    StatementNotFound(Seq<char>),
    PortalStatementNotFound(Seq<char>, Seq<char>),
    PortalNotFound(Seq<char>),
    SchemaMissing,
    TailParameters,
    TooMany,
}

impl View for RequestError {
    type V = ErrorView;

    open spec fn view(&self) -> ErrorView {
        match *self {
            RequestError::Malformed(part, cause) => ErrorView::Malformed(part, cause),
            RequestError::NegativeCount(part, count) => ErrorView::NegativeCount(part, count),
            RequestError::NegativeLength(length) => ErrorView::NegativeLength(length),
            RequestError::BinaryParameter => ErrorView::BinaryParameter,
            RequestError::ParameterNotUtf8(bytes) => ErrorView::ParameterNotUtf8(bytes@),
            RequestError::InvalidParameter(value, kind) => ErrorView::InvalidParameter(
                value@,
                kind,
            ),
            RequestError::Placeholder(error) => ErrorView::Placeholder(error),
            RequestError::UnknownVariant(part, variant) => ErrorView::UnknownVariant(part, variant),
            RequestError::StatementNotFound(name) => ErrorView::StatementNotFound(name@),
            RequestError::PortalStatementNotFound(name, portal) =>
                ErrorView::PortalStatementNotFound(name@, portal@),
            RequestError::PortalNotFound(name) => ErrorView::PortalNotFound(name@),
            RequestError::SchemaMissing => ErrorView::SchemaMissing,
            RequestError::TailParameters => ErrorView::TailParameters,
            RequestError::TooMany => ErrorView::TooMany,
        }
    }
}

/// A part that was read, or that it could not be read.
pub open spec fn part<T>(part: MessagePart, read: Result<T, CursorError>) -> Result<T, ErrorView> {
    match read {
        Ok(value) => Ok(value),
        Err(cause) => Err(ErrorView::Malformed(part, cause)),
    }
}

/// A count, and the bytes behind it.
pub open spec fn count_at(part_read: MessagePart, bytes: Seq<u8>) -> Result<
    (nat, Seq<u8>),
    ErrorView,
> {
    match part(part_read, cursor::i16_at(bytes)) {
        Ok((count, rest)) => if count < 0 {
            Err(ErrorView::NegativeCount(part_read, count))
        } else {
            Ok((count as nat, rest))
        },
        Err(error) => Err(error),
    }
}

/// A request to prepare a statement.
pub struct ParseView {
    pub name: Seq<char>,
    pub sql: Seq<char>,
    pub param_types: Seq<u32>,
}

/// The request that a message to prepare a statement holds.
pub open spec fn parse_request(payload: Seq<u8>) -> Result<ParseView, ErrorView> {
    match part(MessagePart::ParseStatement, cursor::cstr_at(payload)) {
        Err(error) => Err(error),
        Ok((name, rest)) => match part(MessagePart::ParseSql, cursor::cstr_at(rest)) {
            Err(error) => Err(error),
            Ok((sql, rest)) => match count_at(MessagePart::ParseParameterCount, rest) {
                Err(error) => Err(error),
                Ok((count, rest)) => match part(
                    MessagePart::ParseParameterTypes,
                    cursor::u32s_at(rest, count),
                ) {
                    Err(error) => Err(error),
                    Ok((param_types, rest)) => Ok(ParseView { name, sql, param_types }),
                },
            },
        },
    }
}

/// A request to prepare a statement.
#[derive(Debug, PartialEq, Eq)]
pub struct ParseRequest {
    pub name: String,
    pub sql: String,
    pub param_types: Vec<u32>,
}

impl View for ParseRequest {
    type V = ParseView;

    open spec fn view(&self) -> ParseView {
        ParseView { name: self.name@, sql: self.sql@, param_types: self.param_types@ }
    }
}

/// A result as mathematical values.
pub open spec fn outcome<T: View>(result: Result<T, RequestError>) -> Result<T::V, ErrorView> {
    match result {
        Ok(value) => Ok(value@),
        Err(error) => Err(error@),
    }
}

/// Reads a text, or tells that the part cannot be read.
pub(super) fn text_part(cursor: &mut MessageCursor, part_read: MessagePart) -> (result: Result<
    String,
    RequestError,
>)
    ensures
        match result {
            Ok(value) => part(part_read, cursor::cstr_at(old(cursor).left())) == Ok::<
                (Seq<char>, Seq<u8>),
                ErrorView,
            >((value@, final(cursor).left())),
            Err(error) => part(part_read, cursor::cstr_at(old(cursor).left())) == Err::<
                (Seq<char>, Seq<u8>),
                ErrorView,
            >(error@),
        },
{
    match cursor.read_cstr_owned() {
        Ok(value) => Ok(value),
        Err(cause) => Err(RequestError::Malformed(part_read, cause)),
    }
}

/// Reads a count, or tells that the part cannot be read.
pub(super) fn count_part(cursor: &mut MessageCursor, part_read: MessagePart) -> (result: Result<
    usize,
    RequestError,
>)
    ensures
        match result {
            Ok(count) => count <= i16::MAX && count_at(part_read, old(cursor).left()) == Ok::<
                (nat, Seq<u8>),
                ErrorView,
            >((count as nat, final(cursor).left())),
            Err(error) => count_at(part_read, old(cursor).left()) == Err::<
                (nat, Seq<u8>),
                ErrorView,
            >(error@),
        },
{
    match cursor.read_i16() {
        Ok(count) => if count < 0 {
            Err(RequestError::NegativeCount(part_read, count))
        } else {
            Ok(count as usize)
        },
        Err(cause) => Err(RequestError::Malformed(part_read, cause)),
    }
}

/// Reads a message to prepare a statement.
pub fn read_parse(payload: &[u8]) -> (result: Result<ParseRequest, RequestError>)
    ensures
        outcome(result) == parse_request(payload@),
{
    let mut cursor = MessageCursor::new(payload);
    let name = match text_part(&mut cursor, MessagePart::ParseStatement) {
        Ok(name) => name,
        Err(error) => {
            return Err(error);
        },
    };
    let sql = match text_part(&mut cursor, MessagePart::ParseSql) {
        Ok(sql) => sql,
        Err(error) => {
            return Err(error);
        },
    };
    let count: usize = match count_part(&mut cursor, MessagePart::ParseParameterCount) {
        Ok(count) => count,
        Err(error) => {
            return Err(error);
        },
    };
    match cursor.read_u32s(count) {
        Ok(param_types) => Ok(ParseRequest { name, sql, param_types }),
        Err(cause) => Err(RequestError::Malformed(MessagePart::ParseParameterTypes, cause)),
    }
}

/// The variant and name of a message about a statement or a portal.
pub open spec fn object_request(
    payload: Seq<u8>,
    variant_part: MessagePart,
    name_part: MessagePart,
) -> Result<(u8, Seq<char>), ErrorView> {
    if payload.len() == 0 {
        Err(ErrorView::Malformed(variant_part, CursorError::UnexpectedEnd))
    } else {
        match part(name_part, cursor::cstr_at(payload.skip(1))) {
            Ok((name, rest)) => Ok((payload[0], name)),
            Err(error) => Err(error),
        }
    }
}

/// A variant and a name as mathematical values.
pub open spec fn object_outcome(result: Result<(u8, String), RequestError>) -> Result<
    (u8, Seq<char>),
    ErrorView,
> {
    match result {
        Ok((variant, name)) => Ok((variant, name@)),
        Err(error) => Err(error@),
    }
}

/// Reads the variant and name of a message about a statement or a portal.
pub fn read_object(payload: &[u8], variant_part: MessagePart, name_part: MessagePart) -> (result:
    Result<(u8, String), RequestError>)
    ensures
        object_outcome(result) == object_request(payload@, variant_part, name_part),
{
    let mut cursor = MessageCursor::new(payload);
    let variant: u8 = match cursor.read_u8() {
        Ok(variant) => variant,
        Err(cause) => {
            return Err(RequestError::Malformed(variant_part, cause));
        },
    };
    match text_part(&mut cursor, name_part) {
        Ok(name) => Ok((variant, name)),
        Err(error) => Err(error),
    }
}

/// The portal of a message to execute it, and the largest number of rows.
pub open spec fn execute_request(payload: Seq<u8>) -> Result<(Seq<char>, Option<nat>), ErrorView> {
    match part(MessagePart::ExecutePortal, cursor::cstr_at(payload)) {
        Err(error) => Err(error),
        Ok((portal, rest)) => match part(MessagePart::ExecuteRowLimit, cursor::i32_at(rest)) {
            Err(error) => Err(error),
            Ok((max_rows, rest)) => Ok(
                (
                    portal,
                    if max_rows <= 0 {
                        None
                    } else {
                        Some(max_rows as nat)
                    },
                ),
            ),
        },
    }
}

/// A limit as a mathematical value.
pub open spec fn limit_of(limit: Option<usize>) -> Option<nat> {
    match limit {
        Some(rows) => Some(rows as nat),
        None => None,
    }
}

/// A portal and a limit as mathematical values.
pub open spec fn execute_outcome(result: Result<(String, Option<usize>), RequestError>) -> Result<
    (Seq<char>, Option<nat>),
    ErrorView,
> {
    match result {
        Ok((portal, limit)) => Ok((portal@, limit_of(limit))),
        Err(error) => Err(error@),
    }
}

/// Reads a message to execute a portal.
pub fn read_execute(payload: &[u8]) -> (result: Result<(String, Option<usize>), RequestError>)
    ensures
        execute_outcome(result) == execute_request(payload@),
{
    let mut cursor = MessageCursor::new(payload);
    let portal = match text_part(&mut cursor, MessagePart::ExecutePortal) {
        Ok(portal) => portal,
        Err(error) => {
            return Err(error);
        },
    };
    match cursor.read_i32() {
        Ok(max_rows) => Ok(
            (
                portal,
                if max_rows <= 0 {
                    None
                } else {
                    Some(max_rows as usize)
                },
            ),
        ),
        Err(cause) => Err(RequestError::Malformed(MessagePart::ExecuteRowLimit, cause)),
    }
}

/// The format of the parameter at position `index`: one format is for all parameters, and the
/// last of several for all that have none of their own.
pub open spec fn format_code(formats: Seq<i16>, index: nat) -> i16 {
    if formats.len() == 0 {
        0
    } else if formats.len() == 1 {
        formats[0]
    } else if index < formats.len() {
        formats[index as int]
    } else {
        formats.last()
    }
}

/// The format of the parameter at position `index`.
pub fn format_code_for_index(formats: &Vec<i16>, index: usize) -> (code: i16)
    ensures
        code == format_code(formats@, index as nat),
{
    if formats.len() == 0 {
        0
    } else if formats.len() == 1 {
        formats[0]
    } else if index < formats.len() {
        formats[index]
    } else {
        formats[formats.len() - 1]
    }
}

/// The text at position `index`, if there is one.
pub open spec fn float_for(floats: Seq<Option<String>>, index: int) -> Option<Seq<char>> {
    if 0 <= index < floats.len() {
        values::opt_text(floats[index])
    } else {
        None
    }
}

/// The parameter at position `index` with its type, and the bytes behind it.
pub open spec fn param_at(
    bytes: Seq<u8>,
    index: nat,
    types: Seq<u32>,
    formats: Seq<i16>,
    floats: Seq<Option<String>>,
) -> Result<((ParamView, u32), Seq<u8>), ErrorView> {
    match part(MessagePart::BindParameterLength, cursor::i32_at(bytes)) {
        Err(error) => Err(error),
        Ok((length, rest)) => if length < -1 {
            Err(ErrorView::NegativeLength(length))
        } else if length == -1 {
            let type_oid = if types[index as int] == 0 {
                TEXT_OID
            } else {
                types[index as int]
            };
            Ok(((ParamView::Null, type_oid), rest))
        } else {
            match part(MessagePart::BindParameterValue, cursor::bytes_at(rest, length as nat)) {
                Err(error) => Err(error),
                Ok((value, rest)) => if format_code(formats, index) != 0 {
                    Err(ErrorView::BinaryParameter)
                } else if !valid_utf8(value) {
                    Err(ErrorView::ParameterNotUtf8(value))
                } else {
                    let value = decode_utf8(value);
                    match params::converted(
                        value,
                        types[index as int],
                        float_for(floats, index as int),
                        params::rfc3339_millis(text::trimmed(value)),
                    ) {
                        Ok(converted) => Ok((converted, rest)),
                        Err(kind) => Err(ErrorView::InvalidParameter(value, kind)),
                    }
                },
            }
        },
    }
}

/// The parameters from position `index` up to `count` with their types, and the bytes behind
/// them.
pub open spec fn params_at(
    bytes: Seq<u8>,
    index: nat,
    count: nat,
    types: Seq<u32>,
    formats: Seq<i16>,
    floats: Seq<Option<String>>,
) -> Result<(Seq<(ParamView, u32)>, Seq<u8>), ErrorView>
    decreases count - index,
{
    if index >= count {
        Ok((Seq::empty(), bytes))
    } else {
        match param_at(bytes, index, types, formats, floats) {
            Err(error) => Err(error),
            Ok((param, rest)) => after_param(
                seq![param],
                params_at(rest, index + 1, count, types, formats, floats),
            ),
        }
    }
}

/// Parameters before the ones that follow, if these can be read.
pub open spec fn after_param(
    first: Seq<(ParamView, u32)>,
    rest: Result<(Seq<(ParamView, u32)>, Seq<u8>), ErrorView>,
) -> Result<(Seq<(ParamView, u32)>, Seq<u8>), ErrorView> {
    match rest {
        Ok((others, left)) => Ok((first + others, left)),
        Err(error) => Err(error),
    }
}

/// Bound values with their types.
pub open spec fn typed(params: Seq<BoundParam>, types: Seq<u32>) -> Seq<(ParamView, u32)> {
    Seq::new(params.len(), |i: int| (params[i]@, types[i]))
}

/// Reads the parameter at position `index` with its type.
fn read_param(
    cursor: &mut MessageCursor,
    index: usize,
    types: &Vec<u32>,
    formats: &Vec<i16>,
    floats: &Vec<Option<String>>,
) -> (result: Result<(BoundParam, u32), RequestError>)
    requires
        index < types@.len(),
    ensures
        match result {
            Ok((param, type_oid)) => param_at(
                old(cursor).left(),
                index as nat,
                types@,
                formats@,
                floats@,
            ) == Ok::<((ParamView, u32), Seq<u8>), ErrorView>(
                ((param@, type_oid), final(cursor).left()),
            ),
            Err(error) => param_at(old(cursor).left(), index as nat, types@, formats@, floats@)
                == Err::<((ParamView, u32), Seq<u8>), ErrorView>(error@),
        },
{
    let length: i32 = match cursor.read_i32() {
        Ok(length) => length,
        Err(cause) => {
            return Err(RequestError::Malformed(MessagePart::BindParameterLength, cause));
        },
    };
    if length < -1 {
        return Err(RequestError::NegativeLength(length));
    }
    if length == -1 {
        let type_oid: u32 = if types[index] == 0 {
            TEXT_OID
        } else {
            types[index]
        };
        return Ok((BoundParam::Null, type_oid));
    }
    let bytes = match cursor.read_bytes(length as usize) {
        Ok(bytes) => bytes,
        Err(cause) => {
            return Err(RequestError::Malformed(MessagePart::BindParameterValue, cause));
        },
    };
    if format_code_for_index(formats, index) != 0 {
        return Err(RequestError::BinaryParameter);
    }
    let value = match utf8_text(bytes) {
        Some(value) => value,
        None => {
            let mut copy: Vec<u8> = Vec::new();
            let mut i: usize = 0;
            while i < bytes.len()
                invariant
                    i <= bytes@.len(),
                    copy@ == bytes@.take(i as int),
                decreases bytes@.len() - i,
            {
                copy.push(bytes[i]);
                assert(copy@ =~= bytes@.take(i + 1));
                i = i + 1;
            }
            assert(copy@ =~= bytes@);
            return Err(RequestError::ParameterNotUtf8(copy));
        },
    };
    let none: Option<String> = None;
    let float: &Option<String> = if index < floats.len() {
        &floats[index]
    } else {
        &none
    };
    match convert_text_param(value.as_str(), types[index], float) {
        Ok(converted) => Ok(converted),
        Err(kind) => Err(RequestError::InvalidParameter(value, kind)),
    }
}

/// Reads `count` parameters and their types.
pub(super) fn read_params(
    cursor: &mut MessageCursor,
    count: usize,
    types: &Vec<u32>,
    formats: &Vec<i16>,
    floats: &Vec<Option<String>>,
) -> (result: Result<(Vec<BoundParam>, Vec<u32>), RequestError>)
    requires
        count <= types@.len(),
    ensures
        match result {
            Ok((params, found)) => params@.len() == count && found@.len() == count && params_at(
                old(cursor).left(),
                0,
                count as nat,
                types@,
                formats@,
                floats@,
            ) == Ok::<(Seq<(ParamView, u32)>, Seq<u8>), ErrorView>(
                (typed(params@, found@), final(cursor).left()),
            ),
            Err(error) => params_at(
                old(cursor).left(),
                0,
                count as nat,
                types@,
                formats@,
                floats@,
            ) == Err::<(Seq<(ParamView, u32)>, Seq<u8>), ErrorView>(error@),
        },
{
    let ghost start = cursor.left();
    let ghost all = params_at(start, 0, count as nat, types@, formats@, floats@);
    let mut params: Vec<BoundParam> = Vec::new();
    let mut found: Vec<u32> = Vec::new();
    let mut i: usize = 0;
    proof {
        assert(typed(params@, found@) =~= Seq::empty());
        if all is Ok {
            assert(Seq::<(ParamView, u32)>::empty() + all->Ok_0.0 =~= all->Ok_0.0);
        }
    }
    while i < count
        invariant
            i <= count <= types@.len(),
            params@.len() == i,
            found@.len() == i,
            start == old(cursor).left(),
            all == params_at(start, 0, count as nat, types@, formats@, floats@),
            all == after_param(
                typed(params@, found@),
                params_at(cursor.left(), i as nat, count as nat, types@, formats@, floats@),
            ),
        decreases count - i,
    {
        let ghost before = typed(params@, found@);
        match read_param(cursor, i, types, formats, floats) {
            Ok((param, type_oid)) => {
                let ghost one = (param@, type_oid);
                params.push(param);
                found.push(type_oid);
                proof {
                    assert(typed(params@, found@) =~= before.push(one));
                    let rest = params_at(
                        cursor.left(),
                        (i + 1) as nat,
                        count as nat,
                        types@,
                        formats@,
                        floats@,
                    );
                    if rest is Ok {
                        assert(before + (seq![one] + rest->Ok_0.0) =~= before.push(one)
                            + rest->Ok_0.0);
                    }
                }
            },
            Err(error) => {
                return Err(error);
            },
        }
        i = i + 1;
    }
    assert(typed(params@, found@) + Seq::<(ParamView, u32)>::empty() =~= typed(params@, found@));
    Ok((params, found))
}

} // verus!
