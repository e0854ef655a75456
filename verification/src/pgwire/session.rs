//! The statements and portals of a client, and what its requests do to them.

use bytes::BytesMut;
use vstd::prelude::*;
use vstd::utf8::*;

use super::buffer;
use super::buffer::clear;
use super::cursor;
use super::cursor::MessageCursor;
use super::laws;
use super::messages;
use super::messages::{
    maybe_append_mv_version, push_bind_complete, push_close_complete, push_command_complete,
    push_error_response, push_parameter_description, push_parse_complete, push_portal_suspended,
    push_ready_for_query, push_row_description, READY_FOR_QUERY_TAG,
};
use super::params::{BoundParam, ParamView};
use super::request;
use super::request::{
    count_part, read_execute, read_object, read_params, read_parse, text_part, ErrorView,
    MessagePart, ParseView, RequestError,
};
use super::rows::TailStreamOutcome;
use super::sql;
use super::sql::{
    count_placeholders, determine_mv_version, find_mv_names, is_tail_statement,
    rewrite_sql_with_params,
};
use crate::columns;
use crate::columns::{clone_schema, index_of, ColumnBatch, Field};
use crate::encoding::utf8_text;
use crate::mv::registry::{DbspPersistedState, MaterializedViewRegistry};
use crate::name_map::NameMap;
use crate::text;
use crate::text::{push_decimal, push_text, string_of};
use crate::values;
use crate::values::DataType;

verus! {

/// A prepared statement.
#[derive(Debug)]
pub struct PreparedStmt {
    pub sql: String,
    pub param_types: Vec<u32>,
    pub inferred_param_types: Vec<u32>,
    pub result_schema: Option<Vec<Field>>,
    pub schema_includes_mv_version: bool,
}

/// What a prepared statement stands for.
pub struct StatementView {
    pub sql: Seq<char>,
    pub param_types: Seq<u32>,
    pub inferred_param_types: Seq<u32>,
    pub result_schema: Option<Seq<Field>>,
    pub schema_includes_mv_version: bool,
}

/// An optional schema as the sequence of its fields.
pub open spec fn opt_schema(schema: Option<Vec<Field>>) -> Option<Seq<Field>> {
    match schema {
        Some(fields) => Some(fields@),
        None => None,
    }
}

impl View for PreparedStmt {
    type V = StatementView;

    open spec fn view(&self) -> StatementView {
        StatementView {
            sql: self.sql@,
            param_types: self.param_types@,
            inferred_param_types: self.inferred_param_types@,
            result_schema: opt_schema(self.result_schema),
            schema_includes_mv_version: self.schema_includes_mv_version,
        }
    }
}

/// Rows of changes of which some are sent already.
#[derive(Debug)]
pub struct TailBatchCursor {
    pub batch: ColumnBatch,
    pub version: i64,
    pub next_row: usize,
}

/// The changes that a portal is sending, with the stream that they come from.
#[derive(Debug)]
pub struct TailPortalState<S> {
    pub stream: S,
    pub schema: Vec<Field>,
    pub current_batch: Option<TailBatchCursor>,
    pub finished: bool,
}

/// A statement with values bound to its parameters.
#[derive(Debug)]
pub struct Portal<S> {
    pub stmt_name: String,
    pub params: Vec<BoundParam>,
    pub row_limit: Option<i32>,
    pub param_formats: Vec<i16>,
    pub result_formats: Vec<i16>,
    pub tail_state: Option<TailPortalState<S>>,
}

/// What a portal stands for.
pub struct PortalView<S> {
    pub stmt_name: Seq<char>,
    pub params: Seq<ParamView>,
    pub row_limit: Option<i32>,
    pub param_formats: Seq<i16>,
    pub result_formats: Seq<i16>,
    pub tail_state: Option<TailPortalState<S>>,
}

impl<S> View for Portal<S> {
    type V = PortalView<S>;

    open spec fn view(&self) -> PortalView<S> {
        PortalView {
            stmt_name: self.stmt_name@,
            params: sql::param_views(self.params@),
            row_limit: self.row_limit,
            param_formats: self.param_formats@,
            result_formats: self.result_formats@,
            tail_state: self.tail_state,
        }
    }
}

/// What the server keeps of a client.
pub struct ConnState<S> {
    pub statements: NameMap<PreparedStmt>,
    pub portals: NameMap<Portal<S>>,
    pub client_parameters: NameMap<String>,
    pub process_id: i32,
    pub secret_key: i32,
}

/// What the statements and portals of a client stand for.
#[verifier::ext_equal]
pub struct StateView<S> {
    pub statements: Map<Seq<char>, StatementView>,
    pub portals: Map<Seq<char>, PortalView<S>>,
    pub client_parameters: Map<Seq<char>, String>,
    pub process_id: i32,
    pub secret_key: i32,
}

impl<S> View for ConnState<S> {
    type V = StateView<S>;

    open spec fn view(&self) -> StateView<S> {
        StateView {
            statements: self.statements@.map_values(|s: PreparedStmt| s@),
            portals: self.portals@.map_values(|p: Portal<S>| p@),
            client_parameters: self.client_parameters@,
            process_id: self.process_id,
            secret_key: self.secret_key,
        }
    }
}

impl<S> StateView<S> {
    /// The state with a statement under a name.
    pub open spec fn with_statement(self, name: Seq<char>, statement: StatementView) -> Self {
        StateView { statements: self.statements.insert(name, statement), ..self }
    }

    /// The state with a portal under a name.
    pub open spec fn with_portal(self, name: Seq<char>, portal: PortalView<S>) -> Self {
        StateView { portals: self.portals.insert(name, portal), ..self }
    }

    /// The state without a statement.
    pub open spec fn without_statement(self, name: Seq<char>) -> Self {
        StateView { statements: self.statements.remove(name), ..self }
    }

    /// The state without a portal.
    pub open spec fn without_portal(self, name: Seq<char>) -> Self {
        StateView { portals: self.portals.remove(name), ..self }
    }
}

/// The result of a request without an answer of its own.
pub open spec fn done(result: Result<(), RequestError>) -> Result<(), ErrorView> {
    match result {
        Ok(_) => Ok(()),
        Err(error) => Err(error@),
    }
}

/// Types with zeros behind them, up to `count`.
pub open spec fn widened(types: Seq<u32>, count: nat) -> Seq<u32> {
    if types.len() < count {
        types + Seq::new((count - types.len()) as nat, |i: int| 0u32)
    } else {
        types
    }
}

/// Adds zeros behind the types, up to `count`.
fn widen(types: &mut Vec<u32>, count: usize)
    ensures
        final(types)@ == widened(old(types)@, count as nat),
{
    let ghost before = types@;
    while types.len() < count
        invariant
            before.len() <= types@.len(),
            before.len() <= count ==> types@.len() <= count,
            before.len() > count ==> types@ == before,
            types@ == before + Seq::new((types@.len() - before.len()) as nat, |i: int| 0u32),
        decreases count - types@.len(),
    {
        let ghost last = types@;
        types.push(0);
        assert(types@ =~= before + Seq::new((types@.len() - before.len()) as nat, |i: int| 0u32));
    }
    assert(types@ =~= widened(before, count as nat));
}

/// The portal and statement of a message that binds values, and the bytes behind them.
pub open spec fn bind_names(payload: Seq<u8>) -> Result<
    (Seq<char>, Seq<char>, Seq<u8>),
    ErrorView,
> {
    match request::part(MessagePart::BindPortal, cursor::cstr_at(payload)) {
        Err(error) => Err(error),
        Ok((portal, rest)) => match request::part(
            MessagePart::BindStatement,
            cursor::cstr_at(rest),
        ) {
            Err(error) => Err(error),
            Ok((name, rest)) => Ok((portal, name, rest)),
        },
    }
}

/// The formats of the parameters, and the bytes behind them; without any, all are texts.
pub open spec fn bind_formats(bytes: Seq<u8>) -> Result<(Seq<i16>, Seq<u8>), ErrorView> {
    match request::count_at(MessagePart::BindFormatCount, bytes) {
        Err(error) => Err(error),
        Ok((count, rest)) => if count == 0 {
            Ok((seq![0i16], rest))
        } else {
            request::part(MessagePart::BindFormats, cursor::i16s_at(rest, count))
        },
    }
}

/// The formats of the results.
pub open spec fn bind_result_formats(bytes: Seq<u8>) -> Result<(Seq<i16>, Seq<u8>), ErrorView> {
    match request::count_at(MessagePart::BindResultFormatCount, bytes) {
        Err(error) => Err(error),
        Ok((count, rest)) => request::part(
            MessagePart::BindResultFormats,
            cursor::i16s_at(rest, count),
        ),
    }
}

/// What binding values does to a statement, and the portal that comes of it. The types of the
/// statement grow with the number of values even where these cannot be read.
pub open spec fn bound<S>(
    statement: StatementView,
    name: Seq<char>,
    bytes: Seq<u8>,
    floats: Seq<Option<String>>,
) -> (StatementView, Result<PortalView<S>, ErrorView>) {
    match bind_formats(bytes) {
        Err(error) => (statement, Err(error)),
        Ok((formats, rest)) => match request::count_at(MessagePart::BindParameterCount, rest) {
            Err(error) => (statement, Err(error)),
            Ok((count, rest)) => {
                let types = widened(statement.param_types, count);
                let grown = StatementView { param_types: types, ..statement };
                match request::params_at(rest, 0, count, types, formats, floats) {
                    Err(error) => (grown, Err(error)),
                    Ok((typed, rest)) => {
                        let inferred = StatementView {
                            inferred_param_types: Seq::new(typed.len(), |i: int| typed[i].1),
                            ..grown
                        };
                        match bind_result_formats(rest) {
                            Err(error) => (inferred, Err(error)),
                            Ok((result_formats, rest)) => (
                                inferred,
                                Ok(
                                    PortalView {
                                        stmt_name: name,
                                        params: Seq::new(typed.len(), |i: int| typed[i].0),
                                        row_limit: None,
                                        param_formats: formats,
                                        result_formats,
                                        tail_state: None,
                                    },
                                ),
                            ),
                        }
                    },
                }
            },
        },
    }
}

/// What a message that binds values does.
pub open spec fn after_bind<S>(
    state: StateView<S>,
    payload: Seq<u8>,
    floats: Seq<Option<String>>,
) -> (StateView<S>, Result<(), ErrorView>) {
    match bind_names(payload) {
        Err(error) => (state, Err(error)),
        Ok((portal, name, rest)) => if !state.statements.dom().contains(name) {
            (state, Err(ErrorView::StatementNotFound(name)))
        } else {
            match bound::<S>(state.statements[name], name, rest, floats) {
                (statement, Err(error)) => (state.with_statement(name, statement), Err(error)),
                (statement, Ok(made)) => (
                    state.with_statement(name, statement).with_portal(portal, made),
                    Ok(()),
                ),
            }
        },
    }
}

/// A portal or an error as mathematical values.
pub open spec fn portal_outcome<S>(result: Result<Portal<S>, RequestError>) -> Result<
    PortalView<S>,
    ErrorView,
> {
    match result {
        Ok(portal) => Ok(portal@),
        Err(error) => Err(error@),
    }
}

/// Reads the formats of the parameters.
fn read_formats(cursor: &mut MessageCursor) -> (result: Result<Vec<i16>, RequestError>)
    ensures
        match result {
            Ok(formats) => bind_formats(old(cursor).left()) == Ok::<
                (Seq<i16>, Seq<u8>),
                ErrorView,
            >((formats@, final(cursor).left())),
            Err(error) => bind_formats(old(cursor).left()) == Err::<
                (Seq<i16>, Seq<u8>),
                ErrorView,
            >(error@),
        },
{
    let count: usize = match count_part(cursor, MessagePart::BindFormatCount) {
        Ok(count) => count,
        Err(error) => {
            return Err(error);
        },
    };
    if count == 0 {
        let formats: Vec<i16> = vec![0];
        assert(formats@ =~= seq![0i16]);
        return Ok(formats);
    }
    match cursor.read_i16s(count) {
        Ok(formats) => Ok(formats),
        Err(cause) => Err(RequestError::Malformed(MessagePart::BindFormats, cause)),
    }
}

/// Binds values to a statement.
fn bind_statement<S>(
    statement: &mut PreparedStmt,
    name: &str,
    cursor: &mut MessageCursor,
    floats: &Vec<Option<String>>,
) -> (result: Result<Portal<S>, RequestError>)
    ensures
        (final(statement)@, portal_outcome(result)) == bound::<S>(
            old(statement)@,
            name@,
            old(cursor).left(),
            floats@,
        ),
{
    let param_formats = match read_formats(cursor) {
        Ok(formats) => formats,
        Err(error) => {
            return Err(error);
        },
    };
    let count: usize = match count_part(cursor, MessagePart::BindParameterCount) {
        Ok(count) => count,
        Err(error) => {
            return Err(error);
        },
    };
    widen(&mut statement.param_types, count);
    let (params, found) = match read_params(
        cursor,
        count,
        &statement.param_types,
        &param_formats,
        floats,
    ) {
        Ok(read) => read,
        Err(error) => {
            return Err(error);
        },
    };
    proof {
        let typed = request::typed(params@, found@);
        assert(found@ =~= Seq::new(typed.len(), |i: int| typed[i].1));
        assert(sql::param_views(params@) =~= Seq::new(typed.len(), |i: int| typed[i].0));
    }
    statement.inferred_param_types = found;
    let count: usize = match count_part(cursor, MessagePart::BindResultFormatCount) {
        Ok(count) => count,
        Err(error) => {
            return Err(error);
        },
    };
    let result_formats = match cursor.read_i16s(count) {
        Ok(formats) => formats,
        Err(cause) => {
            return Err(RequestError::Malformed(MessagePart::BindResultFormats, cause));
        },
    };
    Ok(
        Portal {
            stmt_name: String::from_str(name),
            params,
            row_limit: None,
            param_formats,
            result_formats,
            tail_state: None,
        },
    )
}

/// The texts of `count` parameters as far as they can be read; one without a value or that is not
/// valid UTF-8 has none.
pub open spec fn texts_at(bytes: Seq<u8>, count: nat) -> Seq<Option<Seq<char>>>
    decreases count,
{
    if count == 0 {
        Seq::empty()
    } else {
        match cursor::i32_at(bytes) {
            Err(error) => Seq::empty(),
            Ok((length, rest)) => if length < -1 {
                Seq::empty()
            } else if length == -1 {
                seq![None] + texts_at(rest, (count - 1) as nat)
            } else {
                match cursor::bytes_at(rest, length as nat) {
                    Err(error) => Seq::empty(),
                    Ok((value, rest)) => seq![
                        if valid_utf8(value) {
                            Some(decode_utf8(value))
                        } else {
                            None
                        },
                    ] + texts_at(rest, (count - 1) as nat),
                }
            },
        }
    }
}

/// The texts of the parameters in a message that binds values, as far as they can be read.
pub open spec fn bind_texts(payload: Seq<u8>) -> Seq<Option<Seq<char>>> {
    match bind_names(payload) {
        Err(error) => Seq::empty(),
        Ok((portal, name, rest)) => match bind_formats(rest) {
            Err(error) => Seq::empty(),
            Ok((formats, rest)) => match request::count_at(MessagePart::BindParameterCount, rest) {
                Err(error) => Seq::empty(),
                Ok((count, rest)) => texts_at(rest, count),
            },
        },
    }
}

/// Texts as mathematical values.
pub open spec fn opt_texts(texts: Seq<Option<String>>) -> Seq<Option<Seq<char>>> {
    Seq::new(texts.len(), |i: int| values::opt_text(texts[i]))
}

/// The texts of the parameters in a message that binds values, as far as they can be read: those
/// for which the floating point numbers are wanted.
pub fn parameter_texts(payload: &[u8]) -> (texts: Vec<Option<String>>)
    ensures
        opt_texts(texts@) == bind_texts(payload@),
{
    let mut texts: Vec<Option<String>> = Vec::new();
    assert(opt_texts(texts@) =~= Seq::empty());
    let mut cursor = MessageCursor::new(payload);
    if text_part(&mut cursor, MessagePart::BindPortal).is_err() {
        return texts;
    }
    if text_part(&mut cursor, MessagePart::BindStatement).is_err() {
        return texts;
    }
    if read_formats(&mut cursor).is_err() {
        return texts;
    }
    let count: usize = match count_part(&mut cursor, MessagePart::BindParameterCount) {
        Ok(count) => count,
        Err(_) => {
            return texts;
        },
    };
    let ghost all = texts_at(cursor.left(), count as nat);
    let mut i: usize = 0;
    assert(Seq::<Option<Seq<char>>>::empty() + all =~= all);
    while i < count
        invariant
            i <= count,
            all == bind_texts(payload@),
            all == opt_texts(texts@) + texts_at(cursor.left(), (count - i) as nat),
        decreases count - i,
    {
        let ghost before = opt_texts(texts@);
        assert(before + Seq::<Option<Seq<char>>>::empty() =~= before);
        let length: i32 = match cursor.read_i32() {
            Ok(length) => length,
            Err(_) => {
                return texts;
            },
        };
        if length < -1 {
            return texts;
        }
        if length == -1 {
            texts.push(None);
        } else {
            match cursor.read_bytes(length as usize) {
                Ok(bytes) => {
                    texts.push(utf8_text(bytes));
                },
                Err(_) => {
                    return texts;
                },
            }
        }
        proof {
            let one = values::opt_text(texts@.last());
            let rest = texts_at(cursor.left(), (count - i - 1) as nat);
            assert(opt_texts(texts@) =~= before.push(one));
            assert(before + (seq![one] + rest) =~= before.push(one) + rest);
        }
        i = i + 1;
    }
    assert(opt_texts(texts@) + Seq::<Option<Seq<char>>>::empty() =~= opt_texts(texts@));
    texts
}

/// Where all parameters are bound, the text of each was told.
pub proof fn law_every_bound_text_is_told(
    bytes: Seq<u8>,
    index: nat,
    count: nat,
    types: Seq<u32>,
    formats: Seq<i16>,
    floats: Seq<Option<String>>,
)
    requires
        index <= count,
        request::params_at(bytes, index, count, types, formats, floats) is Ok,
    ensures
        texts_at(bytes, (count - index) as nat).len() == count - index,
    decreases count - index,
{
    if index < count {
        let (param, rest) = request::param_at(bytes, index, types, formats, floats)->Ok_0;
        law_every_bound_text_is_told(rest, index + 1, count, types, formats, floats);
        assert(count - (index + 1) == count - index - 1);
    }
}

/// A statement that was just prepared.
pub open spec fn prepared(parsed: ParseView) -> StatementView {
    StatementView {
        sql: parsed.sql,
        param_types: parsed.param_types,
        inferred_param_types: Seq::empty(),
        result_schema: None,
        schema_includes_mv_version: false,
    }
}

/// What a message that closes a statement or a portal does.
pub open spec fn after_close<S>(state: StateView<S>, payload: Seq<u8>) -> (
    StateView<S>,
    Result<(), ErrorView>,
) {
    match request::object_request(payload, MessagePart::CloseVariant, MessagePart::CloseName) {
        Err(error) => (state, Err(error)),
        Ok((variant, name)) => if variant == 0x53 {
            (state.without_statement(name), Ok(()))
        } else if variant == 0x50 {
            (state.without_portal(name), Ok(()))
        } else {
            (state, Err(ErrorView::UnknownVariant(MessagePart::CloseVariant, variant)))
        },
    }
}

/// The changes that a closed portal was sending.
pub open spec fn closed_tail<S>(state: StateView<S>, payload: Seq<u8>) -> Option<
    TailPortalState<S>,
> {
    match request::object_request(payload, MessagePart::CloseVariant, MessagePart::CloseName) {
        Ok((variant, name)) => if variant == 0x50 && state.portals.dom().contains(name) {
            state.portals[name].tail_state
        } else {
            None
        },
        Err(error) => None,
    }
}

impl<S> ConnState<S> {
    /// The state of a client that has just connected.
    pub fn new(process_id: i32, secret_key: i32, parameters: NameMap<String>) -> (state: Self)
        ensures
            state@ == (StateView::<S> {
                statements: Map::empty(),
                portals: Map::empty(),
                client_parameters: parameters@,
                process_id,
                secret_key,
            }),
    {
        let state: Self = ConnState {
            statements: NameMap::new(),
            portals: NameMap::new(),
            client_parameters: parameters,
            process_id,
            secret_key,
        };
        assert(state@.statements =~= Map::empty());
        assert(state@.portals =~= Map::empty());
        state
    }

    /// Prepares a statement and answers that it is prepared.
    pub fn handle_parse(&mut self, payload: &[u8], buf: &mut BytesMut) -> (result: Result<
        (),
        RequestError,
    >)
        ensures
            match request::parse_request(payload@) {
                Ok(parsed) => result is Ok && final(self)@ == old(self)@.with_statement(
                    parsed.name,
                    prepared(parsed),
                ) && buffer::buffered(*final(buf)) == messages::message(0x31, Seq::empty()),
                Err(error) => done(result) == Err::<(), ErrorView>(error) && final(self)@ == old(
                    self,
                )@,
            },
    {
        match read_parse(payload) {
            Ok(parsed) => {
                let ghost view = parsed@;
                let statement = PreparedStmt {
                    sql: parsed.sql,
                    param_types: parsed.param_types,
                    inferred_param_types: Vec::new(),
                    result_schema: None,
                    schema_includes_mv_version: false,
                };
                assert(statement@ == prepared(view));
                self.statements.insert(parsed.name, statement);
                clear(buf);
                push_parse_complete(buf);
                assert(self@.statements =~= old(self)@.with_statement(
                    view.name,
                    prepared(view),
                ).statements);
                assert(buffer::buffered(*buf) =~= messages::message(0x31, Seq::empty()));
                Ok(())
            },
            Err(error) => Err(error),
        }
    }

    /// Closes a statement or a portal, answers that it is closed, and hands back the changes that
    /// the portal was sending.
    pub fn handle_close(&mut self, payload: &[u8], buf: &mut BytesMut) -> (result: Result<
        Option<TailPortalState<S>>,
        RequestError,
    >)
        ensures
            final(self)@ == after_close(old(self)@, payload@).0,
            match result {
                Ok(tail) => after_close(old(self)@, payload@).1 is Ok && tail == closed_tail(
                    old(self)@,
                    payload@,
                ) && buffer::buffered(*final(buf)) == messages::message(0x33, Seq::empty()),
                Err(error) => after_close(old(self)@, payload@).1 == Err::<(), ErrorView>(error@),
            },
    {
        let (variant, name) = match read_object(
            payload,
            MessagePart::CloseVariant,
            MessagePart::CloseName,
        ) {
            Ok(object) => object,
            Err(error) => {
                return Err(error);
            },
        };
        let mut tail: Option<TailPortalState<S>> = None;
        if variant == 0x53 {
            self.statements.remove(name.as_str());
            assert(self@.statements =~= old(self)@.statements.remove(name@));
        } else if variant == 0x50 {
            match self.portals.remove(name.as_str()) {
                Some(portal) => {
                    tail = portal.tail_state;
                },
                None => {},
            }
            assert(self@.portals =~= old(self)@.portals.remove(name@));
        } else {
            return Err(RequestError::UnknownVariant(MessagePart::CloseVariant, variant));
        }
        clear(buf);
        push_close_complete(buf);
        assert(buffer::buffered(*buf) =~= messages::message(0x33, Seq::empty()));
        Ok(tail)
    }

    /// Binds values to a statement and answers that they are bound. `floats` holds, for each
    /// parameter, the floating point number that its trimmed text stands for, as its decimal
    /// text.
    pub fn handle_bind(
        &mut self,
        payload: &[u8],
        floats: &Vec<Option<String>>,
        buf: &mut BytesMut,
    ) -> (result: Result<(), RequestError>)
        ensures
            (final(self)@, done(result)) == after_bind(old(self)@, payload@, floats@),
            result is Ok ==> buffer::buffered(*final(buf)) == messages::message(
                0x32,
                Seq::empty(),
            ),
    {
        let mut cursor = MessageCursor::new(payload);
        let portal_name = match text_part(&mut cursor, MessagePart::BindPortal) {
            Ok(name) => name,
            Err(error) => {
                return Err(error);
            },
        };
        let name = match text_part(&mut cursor, MessagePart::BindStatement) {
            Ok(name) => name,
            Err(error) => {
                return Err(error);
            },
        };
        let mut statement = match self.statements.remove(name.as_str()) {
            Some(statement) => statement,
            None => {
                assert(self@.statements =~= old(self)@.statements);
                return Err(RequestError::StatementNotFound(name));
            },
        };
        let bound_portal = bind_statement::<S>(&mut statement, name.as_str(), &mut cursor, floats);
        let ghost after = statement@;
        self.statements.insert(name.clone(), statement);
        assert(self@.statements =~= old(self)@.statements.insert(name@, after));
        match bound_portal {
            Ok(portal) => {
                self.portals.insert(portal_name, portal);
                assert(self@.portals =~= old(self)@.portals.insert(portal_name@, portal@));
                clear(buf);
                push_bind_complete(buf);
                assert(buffer::buffered(*buf) =~= messages::message(0x32, Seq::empty()));
                Ok(())
            },
            Err(error) => Err(error),
        }
    }
}

/// A statement with its schema, unless it has one already.
pub open spec fn with_schema(statement: StatementView, schema: Seq<Field>) -> StatementView {
    match statement.result_schema {
        Some(known) => statement,
        None => StatementView {
            result_schema: Some(schema),
            schema_includes_mv_version: columns::field_index(
                schema,
                messages::mv_version_column(),
            ) is Some,
            ..statement
        },
    }
}

impl PreparedStmt {
    /// Gives the statement its schema, unless it has one already.
    pub fn ensure_statement_schema(&mut self, schema: Vec<Field>)
        ensures
            final(self)@ == with_schema(old(self)@, schema@),
    {
        if self.result_schema.is_some() {
            return ;
        }
        self.schema_includes_mv_version = index_of(&schema, "__mv_version").is_some();
        self.result_schema = Some(schema);
    }
}

/// The columns of the rows of a statement with this schema: where it reads a view, its version is
/// among them.
pub open spec fn shown_columns(statement: StatementView, schema: Seq<Field>) -> Seq<
    (Seq<char>, (u32, i16)),
> {
    let columns = messages::columns_of(schema);
    if sql::mv_names(statement.sql).len() > 0 {
        messages::with_version(columns, statement.schema_includes_mv_version)
    } else {
        columns
    }
}

/// What a description asks for or answers.
pub enum DescribeView {
    /// The messages that answer.
    Answered(Seq<u8>),
    /// The schema of the statement has to be planned.
    NeedsSchema(Seq<char>),
    /// The schema of the changes that the statement asks for is not known.
    NeedsTailSchema(Seq<char>),
    /// The request is refused.
    Refused(ErrorView),
}

/// What a description asks for or answers.
#[derive(Debug, PartialEq, Eq)]
pub enum Described {
    /// The messages that answer are in the buffer.
    Answered,
    /// The schema of the statement has to be planned.
    NeedsSchema(String),
    /// The schema of the changes that the statement asks for is not known.
    NeedsTailSchema(String),
}

/// A description as mathematical values.
pub open spec fn description(
    result: Result<Described, RequestError>,
    answer: Seq<u8>,
) -> DescribeView {
    match result {
        Ok(Described::Answered) => DescribeView::Answered(answer),
        Ok(Described::NeedsSchema(sql)) => DescribeView::NeedsSchema(sql@),
        Ok(Described::NeedsTailSchema(sql)) => DescribeView::NeedsTailSchema(sql@),
        Err(error) => DescribeView::Refused(error@),
    }
}

/// The description of rows behind other messages.
pub open spec fn rows_answer(
    first: Seq<u8>,
    columns: Seq<(Seq<char>, (u32, i16))>,
) -> DescribeView {
    if columns.len() > i16::MAX {
        DescribeView::Refused(ErrorView::TooMany)
    } else {
        DescribeView::Answered(first + messages::row_description(columns))
    }
}

/// A statement with as many types as its text has parameters.
pub open spec fn numbered(statement: StatementView) -> StatementView {
    StatementView {
        param_types: widened(
            statement.param_types,
            sql::largest_placeholder(statement.sql, statement.sql.len()),
        ),
        ..statement
    }
}

/// What describing a statement does to it, and the answer: its parameters and its rows. A schema
/// that was just planned is kept.
pub open spec fn described_statement(statement: StatementView, planned: Option<Seq<Field>>) -> (
    StatementView,
    DescribeView,
) {
    let grown = numbered(statement);
    let first = messages::parameter_description(grown.param_types);
    if grown.param_types.len() > i16::MAX {
        (statement, DescribeView::Refused(ErrorView::TooMany))
    } else if sql::tail_statement(grown.sql) {
        match planned {
            Some(schema) => (grown, rows_answer(first, messages::columns_of(schema))),
            None => (grown, DescribeView::NeedsTailSchema(grown.sql)),
        }
    } else {
        described_rows(grown, planned, first)
    }
}

/// What describing the rows of a statement does to it, and the answer.
pub open spec fn described_rows(
    statement: StatementView,
    planned: Option<Seq<Field>>,
    first: Seq<u8>,
) -> (StatementView, DescribeView) {
    match (statement.result_schema, planned) {
        (Some(schema), _) => (statement, rows_answer(first, shown_columns(statement, schema))),
        (None, Some(schema)) => {
            let known = with_schema(statement, schema);
            (known, rows_answer(first, shown_columns(known, schema)))
        },
        (None, None) => (statement, DescribeView::NeedsSchema(statement.sql)),
    }
}

/// What describing a portal does to its statement, and the answer: the rows.
pub open spec fn described_portal(
    statement: StatementView,
    tail_schema: Option<Seq<Field>>,
    planned: Option<Seq<Field>>,
) -> (StatementView, DescribeView) {
    if sql::tail_statement(statement.sql) {
        match (tail_schema, planned) {
            (Some(schema), _) => (
                statement,
                rows_answer(Seq::empty(), messages::columns_of(schema)),
            ),
            (None, Some(schema)) => (
                statement,
                rows_answer(Seq::empty(), messages::columns_of(schema)),
            ),
            (None, None) => (statement, DescribeView::NeedsTailSchema(statement.sql)),
        }
    } else {
        match described_rows(statement, planned, Seq::empty()) {
            (known, DescribeView::NeedsSchema(sql)) => (known, DescribeView::NeedsSchema(sql)),
            (known, answer) => (numbered(known), answer),
        }
    }
}

/// The schema of the changes that a portal is sending.
pub open spec fn tail_schema<S>(portal: PortalView<S>) -> Option<Seq<Field>> {
    match portal.tail_state {
        Some(tail) => Some(tail.schema@),
        None => None,
    }
}

/// What a message that asks for a description does. `planned` is the schema that was planned for
/// the request, if it was.
pub open spec fn after_describe<S>(
    state: StateView<S>,
    payload: Seq<u8>,
    planned: Option<Seq<Field>>,
) -> (StateView<S>, DescribeView) {
    match request::object_request(payload, MessagePart::DescribeVariant, MessagePart::DescribeName) {
        Err(error) => (state, DescribeView::Refused(error)),
        Ok((variant, name)) => if variant == 0x53 {
            if !state.statements.dom().contains(name) {
                (state, DescribeView::Refused(ErrorView::StatementNotFound(name)))
            } else {
                let (statement, answer) = described_statement(state.statements[name], planned);
                (state.with_statement(name, statement), answer)
            }
        } else if variant == 0x50 {
            if !state.portals.dom().contains(name) {
                (state, DescribeView::Refused(ErrorView::PortalNotFound(name)))
            } else {
                let portal = state.portals[name];
                if !state.statements.dom().contains(portal.stmt_name) {
                    (
                        state,
                        DescribeView::Refused(
                            ErrorView::PortalStatementNotFound(portal.stmt_name, name),
                        ),
                    )
                } else {
                    let (statement, answer) = described_portal(
                        state.statements[portal.stmt_name],
                        tail_schema(portal),
                        planned,
                    );
                    (state.with_statement(portal.stmt_name, statement), answer)
                }
            }
        } else {
            (
                state,
                DescribeView::Refused(
                    ErrorView::UnknownVariant(MessagePart::DescribeVariant, variant),
                ),
            )
        },
    }
}

/// Appends the description of rows, unless there are more columns than a message can tell.
fn answer_rows(schema: &Vec<Field>, buf: &mut BytesMut) -> (result: Result<Described, RequestError>)
    ensures
        description(result, buffer::buffered(*final(buf))) == rows_answer(
            buffer::buffered(*old(buf)),
            messages::columns_of(schema@),
        ),
{
    if schema.len() > 0x7FFF {
        return Err(RequestError::TooMany);
    }
    push_row_description(buf, schema);
    Ok(Described::Answered)
}

/// Appends the description of the rows of a statement.
fn answer_statement_rows(
    statement: &mut PreparedStmt,
    planned: Option<Vec<Field>>,
    buf: &mut BytesMut,
) -> (result: Result<Described, RequestError>)
    ensures
        (final(statement)@, description(result, buffer::buffered(*final(buf)))) == described_rows(
            old(statement)@,
            opt_schema(planned),
            buffer::buffered(*old(buf)),
        ),
{
    if statement.result_schema.is_none() {
        match planned {
            Some(schema) => {
                statement.ensure_statement_schema(schema);
            },
            None => {
                return Ok(Described::NeedsSchema(statement.sql.clone()));
            },
        }
    }
    match &statement.result_schema {
        Some(schema) => {
            let names = find_mv_names(statement.sql.as_str());
            if names.len() > 0 {
                let shown = maybe_append_mv_version(schema, statement.schema_includes_mv_version);
                answer_rows(&shown, buf)
            } else {
                answer_rows(schema, buf)
            }
        },
        None => Err(RequestError::SchemaMissing),
    }
}

/// Describes a statement.
fn describe_statement(
    statement: &mut PreparedStmt,
    planned: Option<Vec<Field>>,
    buf: &mut BytesMut,
) -> (result: Result<Described, RequestError>)
    ensures
        (final(statement)@, description(result, buffer::buffered(*final(buf))))
            == described_statement(old(statement)@, opt_schema(planned)),
{
    let count: usize = count_placeholders(statement.sql.as_str());
    if count > 0x7FFF || statement.param_types.len() > 0x7FFF {
        return Err(RequestError::TooMany);
    }
    widen(&mut statement.param_types, count);
    clear(buf);
    push_parameter_description(buf, &statement.param_types);
    let ghost first = messages::parameter_description(statement.param_types@);
    assert(buffer::buffered(*buf) =~= first);
    if is_tail_statement(statement.sql.as_str()) {
        match planned {
            Some(schema) => answer_rows(&schema, buf),
            None => Ok(Described::NeedsTailSchema(statement.sql.clone())),
        }
    } else {
        answer_statement_rows(statement, planned, buf)
    }
}

/// Describes a portal by its statement.
fn describe_portal(
    statement: &mut PreparedStmt,
    tail_schema: Option<Vec<Field>>,
    planned: Option<Vec<Field>>,
    buf: &mut BytesMut,
) -> (result: Result<Described, RequestError>)
    ensures
        (final(statement)@, description(result, buffer::buffered(*final(buf)))) == described_portal(
            old(statement)@,
            opt_schema(tail_schema),
            opt_schema(planned),
        ),
{
    clear(buf);
    if is_tail_statement(statement.sql.as_str()) {
        match tail_schema {
            Some(schema) => answer_rows(&schema, buf),
            None => match planned {
                Some(schema) => answer_rows(&schema, buf),
                None => Ok(Described::NeedsTailSchema(statement.sql.clone())),
            },
        }
    } else {
        let result = answer_statement_rows(statement, planned, buf);
        match &result {
            Ok(Described::NeedsSchema(_)) => {},
            _ => {
                let count: usize = count_placeholders(statement.sql.as_str());
                widen(&mut statement.param_types, count);
            },
        }
        result
    }
}

impl<S> ConnState<S> {
    /// Describes a statement or a portal. `planned` is the schema that was planned for the
    /// request, if it was.
    pub fn handle_describe(
        &mut self,
        payload: &[u8],
        planned: Option<Vec<Field>>,
        buf: &mut BytesMut,
    ) -> (result: Result<Described, RequestError>)
        ensures
            (final(self)@, description(result, buffer::buffered(*final(buf)))) == after_describe(
                old(self)@,
                payload@,
                opt_schema(planned),
            ),
    {
        let (variant, name) = match read_object(
            payload,
            MessagePart::DescribeVariant,
            MessagePart::DescribeName,
        ) {
            Ok(object) => object,
            Err(error) => {
                return Err(error);
            },
        };
        if variant == 0x53 {
            let mut statement = match self.statements.remove(name.as_str()) {
                Some(statement) => statement,
                None => {
                    assert(self@.statements =~= old(self)@.statements);
                    return Err(RequestError::StatementNotFound(name));
                },
            };
            let result = describe_statement(&mut statement, planned, buf);
            let ghost after = statement@;
            self.statements.insert(name.clone(), statement);
            assert(self@.statements =~= old(self)@.statements.insert(name@, after));
            result
        } else if variant == 0x50 {
            let (stmt_name, tail) = match self.portals.get(name.as_str()) {
                Some(portal) => {
                    let tail: Option<Vec<Field>> = match &portal.tail_state {
                        Some(state) => Some(clone_schema(&state.schema)),
                        None => None,
                    };
                    assert(opt_schema(tail) == tail_schema(portal@));
                    (portal.stmt_name.clone(), tail)
                },
                None => {
                    return Err(RequestError::PortalNotFound(name));
                },
            };
            let mut statement = match self.statements.remove(stmt_name.as_str()) {
                Some(statement) => statement,
                None => {
                    assert(self@.statements =~= old(self)@.statements);
                    return Err(RequestError::PortalStatementNotFound(stmt_name, name));
                },
            };
            let result = describe_portal(&mut statement, tail, planned, buf);
            let ghost after = statement@;
            let ghost kept = stmt_name@;
            self.statements.insert(stmt_name, statement);
            assert(self@.statements =~= old(self)@.statements.insert(kept, after));
            result
        } else {
            Err(RequestError::UnknownVariant(MessagePart::DescribeVariant, variant))
        }
    }
}

/// What a message that executes a portal leads to.
pub enum ExecuteView {
    /// The messages that answer.
    Answered(Seq<u8>),
    /// The schema of the statement has to be planned.
    NeedsSchema(Seq<char>),
    /// The changes of a view are sent through this portal, up to a number of rows.
    Tail(Seq<char>, Option<nat>),
    /// The statement of this portal is run, up to a number of rows.
    Query(Seq<char>, Option<nat>),
    /// The request is refused.
    Refused(ErrorView),
}

/// What a message that executes a portal leads to.
#[derive(Debug, PartialEq, Eq)]
pub enum ExecuteStep {
    /// The messages that answer are in the buffer.
    Answered,
    /// The schema of the statement has to be planned.
    NeedsSchema(String),
    /// The changes of a view are sent through this portal, up to a number of rows.
    Tail(String, Option<usize>),
    /// The statement of this portal is run, up to a number of rows.
    Query(String, Option<usize>),
}

/// A step as mathematical values.
pub open spec fn execution(
    result: Result<ExecuteStep, RequestError>,
    answer: Seq<u8>,
) -> ExecuteView {
    match result {
        Ok(ExecuteStep::Answered) => ExecuteView::Answered(answer),
        Ok(ExecuteStep::NeedsSchema(sql)) => ExecuteView::NeedsSchema(sql@),
        Ok(ExecuteStep::Tail(portal, limit)) => ExecuteView::Tail(portal@, request::limit_of(limit)),
        Ok(ExecuteStep::Query(portal, limit)) => ExecuteView::Query(
            portal@,
            request::limit_of(limit),
        ),
        Err(error) => ExecuteView::Refused(error@),
    }
}

/// The text that tells which parameter has no value.
pub open spec fn missing_text(number: nat) -> Seq<char> {
    "parameter $"@ + text::decimal(number) + " missing"@
}

/// The answer to a request for which a parameter has no value.
pub open spec fn missing_answer(number: nat) -> Seq<u8> {
    messages::error_response("ERROR"@, "XX000"@, missing_text(number), missing_text(number))
        + messages::message(READY_FOR_QUERY_TAG, seq![0x45u8])
}

/// What a message that executes a portal does. `planned` is the schema that was planned for the
/// request, if it was.
pub open spec fn after_execute<S>(
    state: StateView<S>,
    payload: Seq<u8>,
    planned: Option<Seq<Field>>,
) -> (StateView<S>, ExecuteView) {
    match request::execute_request(payload) {
        Err(error) => (state, ExecuteView::Refused(error)),
        Ok((portal_name, limit)) => if !state.portals.dom().contains(portal_name) {
            (state, ExecuteView::Refused(ErrorView::PortalNotFound(portal_name)))
        } else {
            let portal = state.portals[portal_name];
            if !state.statements.dom().contains(portal.stmt_name) {
                (state, ExecuteView::Refused(ErrorView::StatementNotFound(portal.stmt_name)))
            } else {
                let statement = state.statements[portal.stmt_name];
                if portal.params.len() < sql::largest_placeholder(
                    statement.sql,
                    statement.sql.len(),
                ) {
                    (state, ExecuteView::Answered(missing_answer(portal.params.len() + 1)))
                } else if sql::tail_statement(statement.sql) {
                    (state, ExecuteView::Tail(portal_name, limit))
                } else {
                    match (statement.result_schema, planned) {
                        (Some(schema), _) => (state, ExecuteView::Query(portal_name, limit)),
                        (None, Some(schema)) => (
                            state.with_statement(portal.stmt_name, with_schema(statement, schema)),
                            ExecuteView::Query(portal_name, limit),
                        ),
                        (None, None) => (state, ExecuteView::NeedsSchema(statement.sql)),
                    }
                }
            }
        },
    }
}

/// Answers that a parameter has no value.
fn answer_missing(number: usize, buf: &mut BytesMut)
    ensures
        buffer::buffered(*final(buf)) == missing_answer(number as nat),
{
    let mut chars: Vec<char> = Vec::new();
    push_text(&mut chars, "parameter $");
    push_decimal(&mut chars, number as u64);
    push_text(&mut chars, " missing");
    let shown = string_of(chars);
    assert(shown@ =~= missing_text(number as nat));
    clear(buf);
    push_error_response(buf, "ERROR", "XX000", shown.as_str(), shown.as_str());
    push_ready_for_query(buf, 0x45);
    assert(buffer::buffered(*buf) =~= missing_answer(number as nat));
}

/// The names of fields, their types, and whether they take nulls.
pub open spec fn fields_of(schema: Seq<Field>) -> Seq<(Seq<char>, DataType, bool)> {
    Seq::new(
        schema.len(),
        |i: int| (schema[i].name@, schema[i].data_type, schema[i].nullable),
    )
}

/// The fields of the rows of a statement with this schema: where it reads a view and its schema
/// has no version, the version is the last of them.
pub open spec fn shown_fields(statement: StatementView, schema: Seq<Field>) -> Seq<
    (Seq<char>, DataType, bool),
> {
    if sql::mv_names(statement.sql).len() > 0 && !statement.schema_includes_mv_version {
        fields_of(schema).push((messages::mv_version_column(), DataType::UInt64, false))
    } else {
        fields_of(schema)
    }
}

/// The rows of a statement have the columns that a description of the statement tells.
pub proof fn law_rows_have_the_described_columns(
    statement: StatementView,
    schema: Seq<Field>,
    shown: Seq<Field>,
)
    requires
        fields_of(shown) == shown_fields(statement, schema),
    ensures
        messages::columns_of(shown) == shown_columns(statement, schema),
{
    let fields = shown_fields(statement, schema);
    assert(shown.len() == fields.len());
    assert forall|i: int| 0 <= i < shown.len() implies #[trigger] messages::columns_of(shown)[i]
        == shown_columns(statement, schema)[i] by {
        assert(fields_of(shown)[i] == fields[i]);
        if i < schema.len() {
            assert(fields[i] == fields_of(schema)[i]);
        }
    }
    assert(messages::columns_of(shown) =~= shown_columns(statement, schema));
}

/// A statement with its values, ready to be run: the fields of its rows and the version that
/// stands behind each row.
pub struct QueryView {
    pub sql: Seq<char>,
    pub fields: Seq<(Seq<char>, DataType, bool)>,
    pub version: Option<u64>,
}

/// A statement with its values, ready to be run.
#[derive(Debug)]
pub struct QueryPlan {
    pub sql: String,
    pub schema: Vec<Field>,
    pub version: Option<u64>,
}

impl View for QueryPlan {
    type V = QueryView;

    open spec fn view(&self) -> QueryView {
        QueryView {
            sql: self.sql@,
            fields: fields_of(self.schema@),
            version: self.version,
        }
    }
}

/// The statement of a portal with its values.
pub open spec fn query_planned<S, B, C, D, T, W, U>(
    state: StateView<S>,
    portal_name: Seq<char>,
    registry: MaterializedViewRegistry<B, C, DbspPersistedState<D, T>, W, U>,
) -> Result<QueryView, ErrorView> {
    if !state.portals.dom().contains(portal_name) {
        Err(ErrorView::PortalNotFound(portal_name))
    } else {
        let portal = state.portals[portal_name];
        if !state.statements.dom().contains(portal.stmt_name) {
            Err(ErrorView::StatementNotFound(portal.stmt_name))
        } else {
            let statement = state.statements[portal.stmt_name];
            match sql::rewritten(statement.sql, portal.params) {
                Err(error) => Err(ErrorView::Placeholder(error)),
                Ok(rewritten) => match statement.result_schema {
                    None => Err(ErrorView::SchemaMissing),
                    Some(schema) => {
                        let names = sql::mv_names(statement.sql);
                        let appended = names.len() > 0 && !statement.schema_includes_mv_version;
                        Ok(
                            QueryView {
                                sql: rewritten,
                                fields: shown_fields(statement, schema),
                                version: if appended {
                                    sql::mv_version(rewritten, names, registry)
                                } else {
                                    None
                                },
                            },
                        )
                    },
                },
            }
        }
    }
}

/// What is still to be known before changes are sent through a portal.
pub open spec fn tail_open<S>(state: StateView<S>, portal_name: Seq<char>) -> Result<
    bool,
    ErrorView,
> {
    if !state.portals.dom().contains(portal_name) {
        Err(ErrorView::PortalNotFound(portal_name))
    } else if state.portals[portal_name].params.len() > 0 {
        Err(ErrorView::TailParameters)
    } else {
        Ok(state.portals[portal_name].tail_state is Some)
    }
}

/// A truth value or an error as mathematical values.
pub open spec fn flag_outcome(result: Result<bool, RequestError>) -> Result<bool, ErrorView> {
    match result {
        Ok(flag) => Ok(flag),
        Err(error) => Err(error@),
    }
}

/// The answer to a portal that sent changes.
pub open spec fn tail_answer(outcome: TailStreamOutcome) -> Seq<u8> {
    let ready = messages::message(READY_FOR_QUERY_TAG, seq![0x49u8]);
    match outcome {
        TailStreamOutcome::Suspended { rows } => messages::message(0x73, Seq::empty()) + ready,
        TailStreamOutcome::Completed { rows } => messages::message(
            0x43,
            messages::cstr(messages::command_tag(rows as nat)),
        ) + ready,
        TailStreamOutcome::Canceled { rows } => messages::error_response(
            "ERROR"@,
            "57014"@,
            "canceling statement due to user request"@,
            ""@,
        ) + ready,
    }
}

/// A portal that ended is forgotten; one that is suspended is kept.
pub open spec fn after_tail<S>(
    state: StateView<S>,
    portal_name: Seq<char>,
    outcome: TailStreamOutcome,
) -> StateView<S> {
    match outcome {
        TailStreamOutcome::Suspended { rows } => state,
        _ => state.without_portal(portal_name),
    }
}

impl<S> ConnState<S> {
    /// Decides what a message that executes a portal leads to. `planned` is the schema that was
    /// planned for the request, if it was.
    pub fn handle_execute(
        &mut self,
        payload: &[u8],
        planned: Option<Vec<Field>>,
        buf: &mut BytesMut,
    ) -> (result: Result<ExecuteStep, RequestError>)
        ensures
            (final(self)@, execution(result, buffer::buffered(*final(buf)))) == after_execute(
                old(self)@,
                payload@,
                opt_schema(planned),
            ),
    {
        let (portal_name, limit) = match read_execute(payload) {
            Ok(request) => request,
            Err(error) => {
                return Err(error);
            },
        };
        let (stmt_name, bound_count) = match self.portals.get(portal_name.as_str()) {
            Some(portal) => (portal.stmt_name.clone(), portal.params.len()),
            None => {
                return Err(RequestError::PortalNotFound(portal_name));
            },
        };
        let statement = match self.statements.get(stmt_name.as_str()) {
            Some(statement) => statement,
            None => {
                return Err(RequestError::StatementNotFound(stmt_name));
            },
        };
        let needed: usize = count_placeholders(statement.sql.as_str());
        if bound_count < needed {
            answer_missing(bound_count + 1, buf);
            return Ok(ExecuteStep::Answered);
        }
        if is_tail_statement(statement.sql.as_str()) {
            return Ok(ExecuteStep::Tail(portal_name, limit));
        }
        if statement.result_schema.is_none() {
            match planned {
                Some(schema) => {
                    let ghost name = stmt_name@;
                    if let Some(mut statement) = self.statements.remove(stmt_name.as_str()) {
                        statement.ensure_statement_schema(schema);
                        let ghost after = statement@;
                        self.statements.insert(stmt_name, statement);
                        assert(self@.statements =~= old(self)@.statements.insert(name, after));
                    }
                },
                None => {
                    return Ok(ExecuteStep::NeedsSchema(statement.sql.clone()));
                },
            }
        }
        Ok(ExecuteStep::Query(portal_name, limit))
    }

    /// Writes the values of a portal into its statement, and decides on the columns of its rows
    /// and on the version that stands behind each row.
    pub fn plan_query<B, C, D, T, W, U>(
        &self,
        portal_name: &str,
        registry: &MaterializedViewRegistry<B, C, DbspPersistedState<D, T>, W, U>,
    ) -> (result: Result<QueryPlan, RequestError>)
        ensures
            request::outcome(result) == query_planned(self@, portal_name@, *registry),
    {
        let portal = match self.portals.get(portal_name) {
            Some(portal) => portal,
            None => {
                return Err(RequestError::PortalNotFound(String::from_str(portal_name)));
            },
        };
        let statement = match self.statements.get(portal.stmt_name.as_str()) {
            Some(statement) => statement,
            None => {
                return Err(RequestError::StatementNotFound(portal.stmt_name.clone()));
            },
        };
        let rewritten = match rewrite_sql_with_params(statement.sql.as_str(), &portal.params) {
            Ok(rewritten) => rewritten,
            Err(error) => {
                return Err(RequestError::Placeholder(error));
            },
        };
        let names = find_mv_names(statement.sql.as_str());
        let appended: bool = names.len() > 0 && !statement.schema_includes_mv_version;
        let version: Option<u64> = if appended {
            determine_mv_version(rewritten.as_str(), &names, registry)
        } else {
            None
        };
        match &statement.result_schema {
            Some(schema) => {
                let shown = maybe_append_mv_version(schema, !appended);
                proof {
                    if appended {
                        assert(shown@ =~= schema@.push(shown@.last()));
                    }
                    assert(fields_of(shown@) =~= shown_fields(statement@, schema@));
                }
                Ok(QueryPlan { sql: rewritten, schema: shown, version })
            },
            None => Err(RequestError::SchemaMissing),
        }
    }

    /// Whether a portal is sending changes already.
    pub fn tail_is_open(&self, portal_name: &str) -> (result: Result<bool, RequestError>)
        ensures
            flag_outcome(result) == tail_open(self@, portal_name@),
    {
        match self.portals.get(portal_name) {
            Some(portal) => if portal.params.len() > 0 {
                Err(RequestError::TailParameters)
            } else {
                Ok(portal.tail_state.is_some())
            },
            None => Err(RequestError::PortalNotFound(String::from_str(portal_name))),
        }
    }

    /// Answers how the sending of changes ended; a portal that ended is forgotten, and what it
    /// was sending is handed back.
    pub fn finish_tail(&mut self, portal_name: &str, outcome: TailStreamOutcome, buf: &mut BytesMut)
        -> (tail: Option<TailPortalState<S>>)
        ensures
            final(self)@ == after_tail(old(self)@, portal_name@, outcome),
            buffer::buffered(*final(buf)) == tail_answer(outcome),
            tail == (if outcome is Suspended || !old(self)@.portals.dom().contains(portal_name@) {
                None
            } else {
                old(self)@.portals[portal_name@].tail_state
            }),
    {
        clear(buf);
        let mut tail: Option<TailPortalState<S>> = None;
        match outcome {
            TailStreamOutcome::Suspended { rows } => {
                push_portal_suspended(buf);
            },
            TailStreamOutcome::Completed { rows } => {
                if let Some(portal) = self.portals.remove(portal_name) {
                    tail = portal.tail_state;
                }
                assert(self@.portals =~= old(self)@.portals.remove(portal_name@));
                push_command_complete(buf, rows);
            },
            TailStreamOutcome::Canceled { rows } => {
                if let Some(portal) = self.portals.remove(portal_name) {
                    tail = portal.tail_state;
                }
                assert(self@.portals =~= old(self)@.portals.remove(portal_name@));
                push_error_response(
                    buf,
                    "ERROR",
                    "57014",
                    "canceling statement due to user request",
                    "",
                );
            },
        }
        push_ready_for_query(buf, 0x49);
        assert(buffer::buffered(*buf) =~= tail_answer(outcome));
        tail
    }
}

/// A message that binds values makes a portal only where it is not refused, and touches no other
/// portal.
pub proof fn law_bind_makes_one_portal<S>(
    state: StateView<S>,
    payload: Seq<u8>,
    floats: Seq<Option<String>>,
)
    ensures
        ({
            let (after, result) = after_bind(state, payload, floats);
            &&& result is Err ==> after.portals == state.portals
            &&& result is Ok ==> bind_names(payload) is Ok && after.portals.dom().contains(
                bind_names(payload)->Ok_0.0,
            ) && after.portals[bind_names(payload)->Ok_0.0].stmt_name == bind_names(payload)->Ok_0.1
            &&& result is Ok ==> after.portals.remove(bind_names(payload)->Ok_0.0)
                == state.portals.remove(bind_names(payload)->Ok_0.0)
            &&& after.statements.dom() == state.statements.dom()
        }),
{
    let (after, result) = after_bind(state, payload, floats);
    assert(after.statements.dom() =~= state.statements.dom());
    if result is Ok {
        let name = bind_names(payload)->Ok_0.0;
        assert(after.portals.remove(name) =~= state.portals.remove(name));
    }
}

/// A closed portal cannot be executed.
pub proof fn law_closed_portal_is_gone<S>(
    state: StateView<S>,
    close: Seq<u8>,
    execute: Seq<u8>,
    planned: Option<Seq<Field>>,
)
    requires
        after_close(state, close).1 is Ok,
        close[0] == 0x50,
        request::execute_request(execute) is Ok,
        request::execute_request(execute)->Ok_0.0 == request::object_request(
            close,
            MessagePart::CloseVariant,
            MessagePart::CloseName,
        )->Ok_0.1,
    ensures
        after_execute(after_close(state, close).0, execute, planned).1 == ExecuteView::Refused(
            ErrorView::PortalNotFound(request::execute_request(execute)->Ok_0.0),
        ),
{
}

/// A prepared statement can be described, whatever was prepared before under its name.
pub proof fn law_prepared_statement_is_found<S>(
    state: StateView<S>,
    parse: Seq<u8>,
    describe: Seq<u8>,
    planned: Option<Seq<Field>>,
)
    requires
        request::parse_request(parse) is Ok,
        request::object_request(
            describe,
            MessagePart::DescribeVariant,
            MessagePart::DescribeName,
        ) == Ok::<(u8, Seq<char>), ErrorView>((0x53u8, request::parse_request(parse)->Ok_0.name)),
    ensures
        ({
            let parsed = request::parse_request(parse)->Ok_0;
            after_describe(
                state.with_statement(parsed.name, prepared(parsed)),
                describe,
                planned,
            ).1 == described_statement(prepared(parsed), planned).1
        }),
{
}

/// The names in a request to bind are read back: the portal and the statement.
pub proof fn law_bound_names_are_read_back(
    portal: Seq<char>,
    name: Seq<char>,
    rest: Seq<u8>,
)
    requires
        laws::plain(portal),
        laws::plain(name),
    ensures
        bind_names(messages::cstr(portal) + messages::cstr(name) + rest) == Ok::<
            (Seq<char>, Seq<char>, Seq<u8>),
            ErrorView,
        >((portal, name, rest)),
{
    assert(messages::cstr(portal) + messages::cstr(name) + rest =~= messages::cstr(portal) + (
    messages::cstr(name) + rest));
    laws::law_text_is_read_back(portal, messages::cstr(name) + rest);
    laws::law_text_is_read_back(name, rest);
}

/// Formats in a request to bind are read back. Without any the parameters are texts, and a client
/// that asks for none of the rows gets none told.
pub proof fn law_bound_formats_are_read_back(format: i16, rest: Seq<u8>)
    ensures
        bind_formats(messages::int2(0) + rest) == Ok::<(Seq<i16>, Seq<u8>), ErrorView>(
            (seq![0i16], rest),
        ),
        bind_formats(messages::int2(1) + messages::int2(format as int) + rest) == Ok::<
            (Seq<i16>, Seq<u8>),
            ErrorView,
        >((seq![format], rest)),
        bind_result_formats(messages::int2(0) + rest) == Ok::<(Seq<i16>, Seq<u8>), ErrorView>(
            (Seq::empty(), rest),
        ),
        bind_result_formats(messages::int2(1) + messages::int2(format as int) + rest) == Ok::<
            (Seq<i16>, Seq<u8>),
            ErrorView,
        >((seq![format], rest)),
{
    let one = messages::int2(format as int) + rest;
    assert(messages::int2(1) + messages::int2(format as int) + rest =~= messages::int2(1) + one);
    laws::law_short_number_is_read_back(0i16, rest);
    laws::law_short_number_is_read_back(1i16, one);
    laws::law_short_numbers_are_read_in_turn(format, rest, 0);
    assert(seq![format] + Seq::<i16>::empty() =~= seq![format]);
}

/// Binding leaves a statement what it is, but for the types of its parameters: those that were
/// known stay, and there is one for each value. The portal runs that statement from its start.
pub proof fn law_bound_portal_runs_its_statement<S>(
    statement: StatementView,
    name: Seq<char>,
    bytes: Seq<u8>,
    floats: Seq<Option<String>>,
)
    ensures
        ({
            let (after, result) = bound::<S>(statement, name, bytes, floats);
            &&& after.sql == statement.sql
            &&& after.result_schema == statement.result_schema
            &&& after.schema_includes_mv_version == statement.schema_includes_mv_version
            &&& after.param_types.len() >= statement.param_types.len()
            &&& after.param_types.take(statement.param_types.len() as int)
                == statement.param_types
            &&& forall|i: int|
                statement.param_types.len() <= i < after.param_types.len()
                    ==> #[trigger] after.param_types[i] == 0
            &&& result matches Ok(portal) ==> {
                &&& portal.stmt_name == name
                &&& portal.row_limit is None
                &&& portal.tail_state is None
                &&& after.inferred_param_types.len() == portal.params.len()
                &&& after.param_types.len() >= portal.params.len()
            }
        }),
{
    let (after, result) = bound::<S>(statement, name, bytes, floats);
    assert(after.param_types.take(statement.param_types.len() as int) =~= statement.param_types);
    if bind_formats(bytes) is Ok {
        let (formats, rest) = bind_formats(bytes)->Ok_0;
        if request::count_at(MessagePart::BindParameterCount, rest) is Ok {
            let (count, rest) = request::count_at(MessagePart::BindParameterCount, rest)->Ok_0;
            let types = widened(statement.param_types, count);
            lemma_parameters_counted(rest, 0, count, types, formats, floats);
        }
    }
}

proof fn lemma_parameters_counted(
    bytes: Seq<u8>,
    index: nat,
    count: nat,
    types: Seq<u32>,
    formats: Seq<i16>,
    floats: Seq<Option<String>>,
)
    requires
        index <= count,
    ensures
        request::params_at(bytes, index, count, types, formats, floats) matches Ok((params, _))
            ==> params.len() == count - index,
    decreases count - index,
{
    if index < count {
        match request::param_at(bytes, index, types, formats, floats) {
            Ok((param, rest)) => {
                lemma_parameters_counted(rest, index + 1, count, types, formats, floats);
            },
            Err(_) => {},
        }
    }
}

/// Where a statement has a placeholder for which its portal has no value, running the portal is
/// answered with an error. Else a statement that follows a view does so, and another one asks for
/// its schema until it is known.
#[verifier::rlimit(40)]
pub proof fn law_what_running_a_portal_does<S>(
    state: StateView<S>,
    payload: Seq<u8>,
    planned: Option<Seq<Field>>,
    at: int,
    end: int,
    number: nat,
)
    ensures
        ({
            let (after, step) = after_execute(state, payload, planned);
            &&& after.portals == state.portals
            &&& after.client_parameters == state.client_parameters
            &&& after.process_id == state.process_id
            &&& after.secret_key == state.secret_key
            &&& after.statements.dom() == state.statements.dom()
            &&& request::execute_request(payload) matches Ok((name, limit)) ==> {
                &&& !state.portals.dom().contains(name) ==> step == ExecuteView::Refused(
                    ErrorView::PortalNotFound(name),
                )
                &&& state.portals.dom().contains(name) && state.statements.dom().contains(
                    state.portals[name].stmt_name,
                ) ==> {
                    let portal = state.portals[name];
                    let statement = state.statements[portal.stmt_name];
                    &&& after.statements[portal.stmt_name].sql == statement.sql
                    &&& sql::is_placeholder(statement.sql, at, end, number) && portal.params.len()
                        < number <= usize::MAX ==> step == ExecuteView::Answered(
                        missing_answer(portal.params.len() + 1),
                    )
                    &&& !statement.sql.contains('$') ==> match step {
                        ExecuteView::Tail(told, rows) => sql::tail_statement(statement.sql) && told
                            == name && rows == limit,
                        ExecuteView::Query(told, rows) => !sql::tail_statement(statement.sql)
                            && told == name && rows == limit && after.statements[
                        portal.stmt_name].result_schema is Some,
                        ExecuteView::NeedsSchema(told) => !sql::tail_statement(statement.sql)
                            && told == statement.sql && statement.result_schema is None
                            && planned is None,
                        _ => false,
                    }
                }
            }
        }),
{
    let (after, step) = after_execute(state, payload, planned);
    assert(after.statements.dom() =~= state.statements.dom());
    if request::execute_request(payload) is Ok {
        let name = request::execute_request(payload)->Ok_0.0;
        if state.portals.dom().contains(name) && state.statements.dom().contains(
            state.portals[name].stmt_name,
        ) {
            let text = state.statements[state.portals[name].stmt_name].sql;
            sql::law_largest_placeholder(text, text.len(), at, end, number);
        }
    }
}

/// A statement is described by the types of its parameters, one for each placeholder at least, and
/// by the columns of its rows: those of its schema, and the version of a view behind them where it
/// names one and does not have it.
#[verifier::rlimit(40)]
pub proof fn law_what_describing_a_statement_tells(
    statement: StatementView,
    planned: Option<Seq<Field>>,
    at: int,
    end: int,
    number: nat,
)
    ensures
        ({
            let (after, answer) = described_statement(statement, planned);
            &&& after.sql == statement.sql
            &&& answer matches DescribeView::Answered(bytes) ==> exists|
                columns: Seq<(Seq<char>, (u32, i16))>,
            |
                {
                    &&& bytes == messages::parameter_description(after.param_types)
                        + #[trigger] messages::row_description(columns)
                    &&& columns.len() <= i16::MAX
                    &&& sql::is_placeholder(statement.sql, at, end, number) && number <= usize::MAX
                        ==> number <= after.param_types.len()
                }
            &&& answer is NeedsSchema || answer is NeedsTailSchema ==> planned is None
        }),
{
    sql::law_largest_placeholder(statement.sql, statement.sql.len(), at, end, number);
    let (after, answer) = described_statement(statement, planned);
    if answer is Answered {
        let grown = numbered(statement);
        if sql::tail_statement(grown.sql) {
            let columns = messages::columns_of(planned->0);
            assert(answer->Answered_0 == messages::parameter_description(after.param_types)
                + messages::row_description(columns));
        } else {
            let schema = match grown.result_schema {
                Some(known) => known,
                None => planned->0,
            };
            let columns = shown_columns(after, schema);
            assert(answer->Answered_0 == messages::parameter_description(after.param_types)
                + messages::row_description(columns));
        }
    }
}

/// Columns are told under the names of their fields, in their order.
pub proof fn law_columns_are_told_in_order(statement: StatementView, schema: Seq<Field>)
    ensures
        ({
            let columns = shown_columns(statement, schema);
            &&& schema.len() <= columns.len() <= schema.len() + 1
            &&& columns.len() == schema.len() + 1 <==> sql::mv_names(statement.sql).len() > 0
                && !statement.schema_includes_mv_version
            &&& forall|i: int|
                0 <= i < schema.len() ==> (#[trigger] columns[i]).0 == schema[i].name@
                    && columns[i].1 == messages::pg_type(schema[i].data_type)
            &&& columns.len() > schema.len() ==> columns.last().0 == "__mv_version"@
        }),
{
}

/// The schema of a statement is the first that was found for it, and whether it has the versions
/// is what its columns tell.
pub proof fn law_first_schema_stays(
    statement: StatementView,
    first: Seq<Field>,
    second: Seq<Field>,
)
    ensures
        ({
            let known = with_schema(statement, first);
            &&& with_schema(known, second) == known
            &&& known.result_schema is Some
            &&& known.sql == statement.sql
            &&& known.param_types == statement.param_types
            &&& statement.result_schema is None ==> known.result_schema == Some(first) && (
            known.schema_includes_mv_version <==> exists|i: int|
                0 <= i < first.len() && (#[trigger] first[i]).name@ == "__mv_version"@)
        }),
{
    columns::law_first_field_of_a_name(first, "__mv_version"@);
}

/// What a client is told when no more rows of a view follow for now: that they are suspended, how
/// many there were, or that they were stopped; and then that the server is ready. A portal that is
/// suspended stays, another one is gone.
pub proof fn law_end_of_following_a_view<S>(
    state: StateView<S>,
    name: Seq<char>,
    outcome: TailStreamOutcome,
)
    ensures
        ({
            let answer = tail_answer(outcome);
            let after = after_tail(state, name, outcome);
            let n = answer.len();
            &&& n >= 6
            &&& answer.skip(n - 6) == seq!['Z' as u8, 0u8, 0u8, 0u8, 5u8, 'I' as u8]
            &&& answer[0] == (match outcome {
                TailStreamOutcome::Suspended { rows } => 's' as u8,
                TailStreamOutcome::Completed { rows } => 'C' as u8,
                TailStreamOutcome::Canceled { rows } => 'E' as u8,
            })
            &&& outcome is Suspended ==> after == state
            &&& !(outcome is Suspended) ==> !after.portals.dom().contains(name)
            &&& forall|other: Seq<char>|
                other != name ==> (#[trigger] after.portals.dom().contains(other)
                    <==> state.portals.dom().contains(other))
            &&& after.statements == state.statements
        }),
{
    let ready = messages::message(READY_FOR_QUERY_TAG, seq![0x49u8]);
    assert(ready =~= seq!['Z' as u8, 0u8, 0u8, 0u8, 5u8, 'I' as u8]);
    let answer = tail_answer(outcome);
    assert(answer.skip(answer.len() - 6) =~= ready);
}

/// A query has the text of its statement with the values of its portal; without values it is the
/// text of the statement. The version of a view is told only where it names one.
pub proof fn law_what_a_query_asks<S, B, C, D, T, W, U>(
    state: StateView<S>,
    name: Seq<char>,
    registry: MaterializedViewRegistry<B, C, DbspPersistedState<D, T>, W, U>,
)
    ensures
        query_planned(state, name, registry) matches Ok(query) ==> {
            let portal = state.portals[name];
            let statement = state.statements[portal.stmt_name];
            &&& state.portals.dom().contains(name)
            &&& state.statements.dom().contains(portal.stmt_name)
            &&& portal.params.len() == 0 ==> query.sql == statement.sql
            &&& query.version is Some ==> sql::mv_names(statement.sql).len() == 1
                && !statement.schema_includes_mv_version
            &&& statement.result_schema matches Some(schema) && query.fields.len()
                >= schema.len() && (forall|i: int|
                0 <= i < schema.len() ==> (#[trigger] query.fields[i]).0 == schema[i].name@
                    && query.fields[i].1 == schema[i].data_type)
        },
{
}

/// A portal follows a view on where it stopped, and it takes no values; closing it hands back what
/// it was following.
pub proof fn law_portals_that_follow_a_view<S>(state: StateView<S>, name: Seq<char>, rest: Seq<u8>)
    requires
        laws::plain(name),
    ensures
        match tail_open(state, name) {
            Ok(open) => {
                &&& state.portals.dom().contains(name)
                &&& state.portals[name].params.len() == 0
                &&& open <==> state.portals[name].tail_state is Some
            },
            Err(ErrorView::PortalNotFound(told)) => told == name && !state.portals.dom().contains(
                name,
            ),
            Err(error) => error is TailParameters && state.portals[name].params.len() > 0,
        },
        state.portals.dom().contains(name) ==> closed_tail(
            state,
            seq!['P' as u8] + messages::cstr(name) + rest,
        ) == state.portals[name].tail_state,
        closed_tail(state, seq!['S' as u8] + messages::cstr(name) + rest) is None,
{
    laws::law_object_request_is_read_back(
        'P' as u8,
        name,
        rest,
        MessagePart::CloseVariant,
        MessagePart::CloseName,
    );
    laws::law_object_request_is_read_back(
        'S' as u8,
        name,
        rest,
        MessagePart::CloseVariant,
        MessagePart::CloseName,
    );
}

/// Closing takes away the statement or the portal that is named, and nothing else.
pub proof fn law_closing_takes_one_thing_away<S>(
    state: StateView<S>,
    name: Seq<char>,
    other: Seq<char>,
    rest: Seq<u8>,
)
    requires
        laws::plain(name),
    ensures
        ({
            let (after, result) = after_close(
                state,
                seq!['S' as u8] + messages::cstr(name) + rest,
            );
            &&& result is Ok
            &&& after.portals == state.portals
            &&& after.statements.dom().contains(other) <==> state.statements.dom().contains(other)
                && other != name
        }),
        ({
            let (after, result) = after_close(
                state,
                seq!['P' as u8] + messages::cstr(name) + rest,
            );
            &&& result is Ok
            &&& after.statements == state.statements
            &&& after.portals.dom().contains(other) <==> state.portals.dom().contains(other)
                && other != name
        }),
{
    laws::law_object_request_is_read_back(
        'P' as u8,
        name,
        rest,
        MessagePart::CloseVariant,
        MessagePart::CloseName,
    );
    laws::law_object_request_is_read_back(
        'S' as u8,
        name,
        rest,
        MessagePart::CloseVariant,
        MessagePart::CloseName,
    );
}

/// A portal is described by the columns of its rows alone. One that follows a view has the columns
/// that it is following, whatever else is planned; another one those of its statement.
#[verifier::rlimit(40)]
pub proof fn law_what_describing_a_portal_tells(
    statement: StatementView,
    following: Option<Seq<Field>>,
    planned: Option<Seq<Field>>,
)
    ensures
        ({
            let (after, answer) = described_portal(statement, following, planned);
            let schema = if sql::tail_statement(statement.sql) {
                following
            } else {
                statement.result_schema
            };
            &&& after.sql == statement.sql
            &&& sql::tail_statement(statement.sql) ==> after == statement
            &&& answer matches DescribeView::Answered(bytes) ==> {
                let told = match schema {
                    Some(known) => known,
                    None => planned->0,
                };
                &&& schema is Some || planned is Some
                &&& sql::tail_statement(statement.sql) ==> bytes == messages::row_description(
                    messages::columns_of(told),
                )
                &&& !sql::tail_statement(statement.sql) ==> bytes == messages::row_description(
                    shown_columns(with_schema(statement, told), told),
                )
            }
            &&& answer is NeedsSchema || answer is NeedsTailSchema <==> schema is None
                && planned is None
        }),
{
    let (after, answer) = described_portal(statement, following, planned);
    match answer {
        DescribeView::Answered(bytes) => {
            let schema = if sql::tail_statement(statement.sql) {
                following
            } else {
                statement.result_schema
            };
            let told = match schema {
                Some(known) => known,
                None => planned->0,
            };
            let columns = if sql::tail_statement(statement.sql) {
                messages::columns_of(told)
            } else {
                shown_columns(with_schema(statement, told), told)
            };
            assert(Seq::<u8>::empty() + messages::row_description(columns)
                =~= messages::row_description(columns));
        },
        _ => {},
    }
}

} // verus!
