//! What the server reads out of the text of a statement.

use vstd::prelude::*;
use vstd::utf8::*;

use super::params;
use super::params::{encode_literal, BoundParam, ParamView};
use crate::mv::registry::{DbspPersistedState, MaterializedViewRegistry};
use crate::mv::registry;
use crate::namespaces;
use crate::namespaces::materialized_view;
use crate::text;
use crate::text::{
    chars_of, end_of_digits, is_whitespace, number_in, push_text, replace_chars, same_text,
    stands_at, string_of, sub_chars, to_ascii_lower,
};

verus! {

/// The texts of strings.
pub open spec fn texts(names: Seq<String>) -> Seq<Seq<char>> {
    Seq::new(names.len(), |i: int| names[i]@)
}

/// Characters that names are made of.
pub open spec fn word_char(c: char) -> bool {
    ('a' <= c <= 'z') || ('A' <= c <= 'Z') || ('0' <= c <= '9') || c == '_' || c == '"'
}

/// The start of the word that stands before position `n`.
pub open spec fn word_start(s: Seq<char>, n: nat) -> nat
    decreases n,
{
    if n > 0 && word_char(s[n - 1]) {
        word_start(s, (n - 1) as nat)
    } else {
        n
    }
}

/// The name of a materialized view that a word stands for: a quoted word as it is written, any
/// other in small letters.
pub open spec fn mv_name(word: Seq<char>) -> Option<Seq<char>> {
    let quoted = word.len() >= 2 && word.first() == '"' && word.last() == '"';
    let name = if quoted {
        word.subrange(1, word.len() - 1)
    } else {
        text::ascii_lowered(word)
    };
    if name.len() > 0 && text::occurs_at(name, "mv_"@, 0) && namespaces::view_namespace(name) is Ok {
        Some(name)
    } else {
        None
    }
}

/// The name of a materialized view in the word that ends at position `n`.
pub open spec fn mv_name_before(s: Seq<char>, n: nat) -> Option<Seq<char>> {
    if (n == s.len() || !word_char(s[n as int])) && word_start(s, n) < n {
        mv_name(s.subrange(word_start(s, n) as int, n as int))
    } else {
        None
    }
}

/// The names of materialized views in words that end within the first `n` characters, each once.
pub open spec fn mv_names_within(s: Seq<char>, n: nat) -> Seq<Seq<char>>
    decreases n,
{
    if n == 0 {
        Seq::empty()
    } else {
        let before = mv_names_within(s, (n - 1) as nat);
        match mv_name_before(s, n) {
            Some(name) => if before.contains(name) {
                before
            } else {
                before.push(name)
            },
            None => before,
        }
    }
}

/// The names of materialized views in a statement, each once, in the order in which they occur.
pub open spec fn mv_names(s: Seq<char>) -> Seq<Seq<char>> {
    mv_names_within(s, s.len())
}

/// No name of a materialized view is given twice, and every name can be stored.
pub proof fn law_mv_names_are_distinct(s: Seq<char>, n: nat)
    ensures
        mv_names_within(s, n).no_duplicates(),
        forall|i: int|
            0 <= i < mv_names_within(s, n).len() ==> namespaces::view_namespace(
                #[trigger] mv_names_within(s, n)[i],
            ) is Ok,
    decreases n,
{
    if n > 0 {
        law_mv_names_are_distinct(s, (n - 1) as nat);
    }
}

/// An optional text as its characters.
pub open spec fn opt_name(name: Option<String>) -> Option<Seq<char>> {
    match name {
        Some(name) => Some(name@),
        None => None,
    }
}

/// The name of a materialized view that a word stands for.
pub fn normalize_identifier(raw: &str) -> (name: Option<String>)
    ensures
        opt_name(name) == mv_name(raw@),
{
    let chars = chars_of(raw);
    let quoted: bool = chars.len() >= 2 && chars[0] == '"' && chars[chars.len() - 1] == '"';
    let normalized = if quoted {
        string_of(sub_chars(&chars, 1, chars.len() - 1))
    } else {
        to_ascii_lower(raw)
    };
    let prefix = chars_of("mv_");
    let inner = chars_of(normalized.as_str());
    proof {
        reveal_strlit("mv_");
    }
    if inner.len() < prefix.len() || !stands_at(&inner, &prefix, 0) {
        return None;
    }
    match materialized_view(normalized.as_str()) {
        Ok(_) => Some(normalized),
        Err(_) => None,
    }
}

/// Whether a name is among the names.
fn has_name(names: &Vec<String>, name: &str) -> (found: bool)
    ensures
        found == texts(names@).contains(name@),
{
    let mut i: usize = 0;
    while i < names.len()
        invariant
            i <= names@.len(),
            forall|j: int| 0 <= j < i ==> names@[j]@ != name@,
        decreases names@.len() - i,
    {
        if same_text(names[i].as_str(), name) {
            assert(texts(names@)[i as int] == name@);
            return true;
        }
        i = i + 1;
    }
    false
}

/// The names of materialized views in a statement, each once, in the order in which they occur.
pub fn find_mv_names(sql: &str) -> (names: Vec<String>)
    ensures
        texts(names@) == mv_names(sql@),
{
    let chars = chars_of(sql);
    let mut names: Vec<String> = Vec::new();
    let mut start: usize = 0;
    let mut i: usize = 0;
    assert(texts(names@) =~= mv_names_within(sql@, 0));
    while i < chars.len()
        invariant
            chars@ == sql@,
            start <= i <= chars@.len(),
            start == word_start(sql@, i as nat),
            texts(names@) == mv_names_within(sql@, i as nat),
        decreases chars@.len() - i,
    {
        let c: char = chars[i];
        let word: bool = (c >= 'a' && c <= 'z') || (c >= 'A' && c <= 'Z') || (c >= '0' && c <= '9')
            || c == '_' || c == '"';
        i = i + 1;
        if !word {
            start = i;
        }
        let ended: bool = i == chars.len() || {
            let c: char = chars[i];
            !((c >= 'a' && c <= 'z') || (c >= 'A' && c <= 'Z') || (c >= '0' && c <= '9') || c == '_'
                || c == '"')
        };
        if ended && start < i {
            let piece = string_of(sub_chars(&chars, start, i));
            match normalize_identifier(piece.as_str()) {
                Some(name) => {
                    if !has_name(&names, name.as_str()) {
                        let ghost before = names@;
                        names.push(name);
                        assert(texts(names@) =~= texts(before).push(name@));
                    }
                },
                None => {},
            }
        }
    }
    names
}

/// A text without the whitespace and control characters at its start.
pub open spec fn without_lead(s: Seq<char>) -> Seq<char>
    decreases s.len(),
{
    if s.len() > 0 && (text::whitespace(s[0]) || s[0] as u32 <= 0x1F || s[0] as u32 == 0x7F) {
        without_lead(s.skip(1))
    } else {
        s
    }
}

/// The word TAIL in any mixture of capitals, alone or with whitespace behind it.
pub open spec fn tail_statement(sql: Seq<char>) -> bool {
    let rest = without_lead(sql);
    &&& rest.len() >= 4
    &&& text::ascii_lowered(rest.take(4)) == "tail"@
    &&& rest.len() == 4 || text::whitespace(rest[4])
}

/// Whether a statement asks for the changes of a view.
pub fn is_tail_statement(sql: &str) -> (found: bool)
    ensures
        found == tail_statement(sql@),
{
    let chars = chars_of(sql);
    let mut from: usize = 0;
    assert(chars@.skip(0) =~= chars@);
    while from < chars.len() && (is_whitespace(chars[from]) || chars[from] as u32 <= 0x1F
        || chars[from] as u32 == 0x7F)
        invariant
            from <= chars@.len(),
            without_lead(chars@) == without_lead(chars@.skip(from as int)),
        decreases chars@.len() - from,
    {
        assert(chars@.skip(from as int).skip(1) =~= chars@.skip(from + 1));
        from = from + 1;
    }
    let ghost rest = chars@.skip(from as int);
    if chars.len() - from < 4 {
        return false;
    }
    let word = string_of(sub_chars(&chars, from, from + 4));
    assert(word@ =~= rest.take(4));
    let lowered = to_ascii_lower(word.as_str());
    if !same_text(lowered.as_str(), "tail") {
        return false;
    }
    chars.len() - from == 4 || is_whitespace(chars[from + 4])
}

/// The number of the parameter whose sign stands at position `at`.
pub open spec fn placeholder_at(s: Seq<char>, at: int) -> Option<nat> {
    let end = text::digits_end(s, at + 1);
    if s[at] == '$' && at + 1 < end <= s.len() {
        Some(text::digits_value(s.subrange(at + 1, end)))
    } else {
        None
    }
}

/// The largest number of a parameter that starts within the first `n` characters; numbers that
/// do not fit are passed over.
pub open spec fn largest_placeholder(s: Seq<char>, n: nat) -> nat
    decreases n,
{
    if n == 0 {
        0
    } else {
        let before = largest_placeholder(s, (n - 1) as nat);
        match placeholder_at(s, n - 1) {
            Some(number) => if before < number <= usize::MAX {
                number
            } else {
                before
            },
            None => before,
        }
    }
}

/// The largest number of a parameter in a statement.
pub fn count_placeholders(sql: &str) -> (count: usize)
    ensures
        count == largest_placeholder(sql@, sql@.len()),
{
    let chars = chars_of(sql);
    let mut largest: usize = 0;
    let mut i: usize = 0;
    while i < chars.len()
        invariant
            i <= chars@.len(),
            chars@ == sql@,
            largest == largest_placeholder(sql@, i as nat),
        decreases chars@.len() - i,
    {
        if chars[i] == '$' {
            let end: usize = end_of_digits(&chars, i + 1);
            if end > i + 1 {
                match number_in(&chars, i + 1, end, usize::MAX as u64) {
                    Some(number) => {
                        if number as usize > largest {
                            largest = number as usize;
                        }
                    },
                    None => {},
                }
            }
        }
        i = i + 1;
    }
    largest
}

/// Why a parameter of a statement cannot be replaced by a value.
#[derive(Clone, Copy, Debug, PartialEq, Eq, Structural)]
pub enum PlaceholderError {
    /// The number of the parameter does not fit.
    TooLarge,
    /// Parameters are numbered from one.
    Zero,
    /// No value is bound to the parameter with this number.
    Missing(usize),
}

/// A text before what follows it, if that can be written.
pub open spec fn before_rest(
    first: Seq<char>,
    rest: Result<Seq<char>, PlaceholderError>,
) -> Result<Seq<char>, PlaceholderError> {
    match rest {
        Ok(rest) => Ok(first + rest),
        Err(error) => Err(error),
    }
}

/// A statement from position `i` on, with each parameter outside of quotes replaced by its value.
pub open spec fn with_values(
    s: Seq<char>,
    i: int,
    quoted: bool,
    values: Seq<ParamView>,
) -> Result<Seq<char>, PlaceholderError>
    decreases s.len() - i,
{
    if i < 0 || i >= s.len() {
        Ok(Seq::empty())
    } else if s[i] == '\'' {
        before_rest(seq!['\''], with_values(s, i + 1, !quoted, values))
    } else if !quoted && placeholder_at(s, i) is Some {
        let number = placeholder_at(s, i)->0;
        if number > usize::MAX {
            Err(PlaceholderError::TooLarge)
        } else if number == 0 {
            Err(PlaceholderError::Zero)
        } else if number > values.len() {
            Err(PlaceholderError::Missing(number as usize))
        } else {
            before_rest(
                params::literal(values[number - 1]),
                with_values(s, text::digits_end(s, i + 1), false, values),
            )
        }
    } else {
        before_rest(seq![s[i]], with_values(s, i + 1, quoted, values))
    }
}

/// One character per byte.
pub open spec fn byte_chars(bytes: Seq<u8>) -> Seq<char> {
    Seq::new(bytes.len(), |i: int| bytes[i] as char)
}

/// What bound values stand for.
pub open spec fn param_views(values: Seq<BoundParam>) -> Seq<ParamView> {
    Seq::new(values.len(), |i: int| values[i]@)
}

/// A statement with the values in place of its parameters: without values it stays as it is;
/// with values its bytes are taken one by one.
pub open spec fn rewritten(sql: Seq<char>, values: Seq<ParamView>) -> Result<
    Seq<char>,
    PlaceholderError,
> {
    if values.len() == 0 {
        Ok(sql)
    } else {
        with_values(byte_chars(encode_utf8(sql)), 0, false, values)
    }
}

/// A rewriting as mathematical values.
pub open spec fn rewriting(result: Result<String, PlaceholderError>) -> Result<
    Seq<char>,
    PlaceholderError,
> {
    match result {
        Ok(sql) => Ok(sql@),
        Err(error) => Err(error),
    }
}

/// A statement with the values in place of its parameters.
pub fn rewrite_sql_with_params(sql: &str, params: &Vec<BoundParam>) -> (result: Result<
    String,
    PlaceholderError,
>)
    ensures
        rewriting(result) == rewritten(sql@, param_views(params@)),
{
    if params.len() == 0 {
        return Ok(String::from_str(sql));
    }
    let ghost values = param_views(params@);
    let ghost all = byte_chars(encode_utf8(sql@));
    let bytes = sql.as_bytes();
    let mut chars: Vec<char> = Vec::new();
    let mut k: usize = 0;
    while k < bytes.len()
        invariant
            k <= bytes@.len(),
            bytes@ == encode_utf8(sql@),
            all == byte_chars(bytes@),
            chars@ == all.take(k as int),
        decreases bytes@.len() - k,
    {
        chars.push(bytes[k] as char);
        assert(chars@ =~= all.take(k + 1));
        k = k + 1;
    }
    assert(chars@ =~= all);
    let mut out: Vec<char> = Vec::new();
    let mut quoted: bool = false;
    let mut i: usize = 0;
    assert(out@ + with_values(all, 0, false, values)->Ok_0 =~= with_values(
        all,
        0,
        false,
        values,
    )->Ok_0);
    while i < chars.len()
        invariant
            i <= chars@.len(),
            chars@ == all,
            all == byte_chars(encode_utf8(sql@)),
            params@.len() > 0,
            values == param_views(params@),
            with_values(all, 0, false, values) == before_rest(
                out@,
                with_values(all, i as int, quoted, values),
            ),
        decreases chars@.len() - i,
    {
        let ghost before = out@;
        let c: char = chars[i];
        if !quoted && c == '$' {
            let end: usize = end_of_digits(&chars, i + 1);
            if end > i + 1 {
                let number: usize = match number_in(&chars, i + 1, end, usize::MAX as u64) {
                    Some(number) => number as usize,
                    None => {
                        return Err(PlaceholderError::TooLarge);
                    },
                };
                if number == 0 {
                    return Err(PlaceholderError::Zero);
                }
                if number > params.len() {
                    return Err(PlaceholderError::Missing(number));
                }
                let shown = encode_literal(&params[number - 1]);
                push_text(&mut out, shown.as_str());
                proof {
                    let rest = with_values(all, end as int, false, values);
                    if rest is Ok {
                        assert(before + (shown@ + rest->Ok_0) =~= out@ + rest->Ok_0);
                    }
                }
                i = end;
                continue ;
            }
        }
        out.push(c);
        proof {
            let rest = with_values(
                all,
                i + 1,
                if c == '\'' {
                    !quoted
                } else {
                    quoted
                },
                values,
            );
            if rest is Ok {
                assert(before + (seq![c] + rest->Ok_0) =~= out@ + rest->Ok_0);
            }
        }
        if c == '\'' {
            quoted = !quoted;
        }
        i = i + 1;
    }
    assert(out@ + Seq::<char>::empty() =~= out@);
    Ok(string_of(out))
}

/// A statement without parameters is not changed by values.
pub proof fn law_plain_statement_is_kept(s: Seq<char>, i: int, quoted: bool, values: Seq<ParamView>)
    requires
        0 <= i <= s.len(),
        !s.contains('$'),
    ensures
        with_values(s, i, quoted, values) == Ok::<Seq<char>, PlaceholderError>(s.skip(i)),
    decreases s.len() - i,
{
    if i < s.len() {
        assert(s[i] != '$');
        let next = if s[i] == '\'' {
            !quoted
        } else {
            quoted
        };
        law_plain_statement_is_kept(s, i + 1, next, values);
        assert(seq![s[i]] + s.skip(i + 1) =~= s.skip(i));
    } else {
        assert(s.skip(i) =~= Seq::empty());
    }
}

/// Spaces, tabs, line ends and form feeds.
pub open spec fn ascii_space(c: char) -> bool {
    c == ' ' || c == '\t' || c == '\n' || c == '\r' || c as u32 == 0x0C
}

/// The position behind the spaces that stand at `from` on.
pub open spec fn spaces_end(s: Seq<char>, from: int) -> int
    decreases s.len() - from,
{
    if 0 <= from < s.len() && ascii_space(s[from]) {
        spaces_end(s, from + 1)
    } else {
        from
    }
}

/// The number behind an equals sign at or behind `from`, with spaces on both sides of the sign.
pub open spec fn compared_number(s: Seq<char>, from: int) -> Option<u64> {
    let sign = spaces_end(s, from);
    let start = spaces_end(s, sign + 1);
    let end = text::digits_end(s, start);
    if 0 <= sign < s.len() && s[sign] == '=' && start < end && text::digits_value(
        s.subrange(start, end),
    ) <= u64::MAX {
        Some(text::digits_value(s.subrange(start, end)) as u64)
    } else {
        None
    }
}

/// The first version that the column for the version of a view is compared with, from position
/// `from` on.
pub open spec fn version_from(s: Seq<char>, from: int) -> Option<u64>
    decreases s.len() - from,
{
    if from < 0 || from >= s.len() {
        None
    } else if text::occurs_at(s, "__mv_version"@, from) && compared_number(s, from + 12) is Some {
        compared_number(s, from + 12)
    } else {
        version_from(s, from + 1)
    }
}

/// The version that a statement asks for: the column may be quoted and its name written in any
/// mixture of capitals, but a quoted name only in small letters.
pub open spec fn version_literal(sql: Seq<char>) -> Option<u64> {
    version_from(
        text::ascii_lowered(
            text::replaced_from(sql, "\"__mv_version\""@, "__mv_version"@, 0),
        ),
        0,
    )
}

/// The position behind the spaces that stand at `from` on.
fn end_of_spaces(chars: &Vec<char>, from: usize) -> (end: usize)
    requires
        from <= chars@.len(),
    ensures
        end == spaces_end(chars@, from as int),
        from <= end <= chars@.len(),
{
    let mut end: usize = from;
    while end < chars.len() && (chars[end] == ' ' || chars[end] == '\t' || chars[end] == '\n'
        || chars[end] == '\r' || chars[end] as u32 == 0x0C)
        invariant
            from <= end <= chars@.len(),
            spaces_end(chars@, from as int) == spaces_end(chars@, end as int),
        decreases chars@.len() - end,
    {
        end = end + 1;
    }
    end
}

/// The number behind an equals sign.
fn read_compared_number(chars: &Vec<char>, from: usize) -> (number: Option<u64>)
    requires
        from <= chars@.len(),
    ensures
        number == compared_number(chars@, from as int),
{
    let sign: usize = end_of_spaces(chars, from);
    if sign >= chars.len() || chars[sign] != '=' {
        return None;
    }
    let start: usize = end_of_spaces(chars, sign + 1);
    let end: usize = end_of_digits(chars, start);
    if start == end {
        return None;
    }
    number_in(chars, start, end, u64::MAX)
}

/// The version that a statement asks for.
pub fn parse_mv_version_literal(sql: &str) -> (version: Option<u64>)
    ensures
        version == version_literal(sql@),
{
    let chars = chars_of(sql);
    let quoted = chars_of("\"__mv_version\"");
    let target = chars_of("__mv_version");
    proof {
        reveal_strlit("\"__mv_version\"");
        reveal_strlit("__mv_version");
    }
    let normalized = string_of(replace_chars(&chars, &quoted, &target));
    let lowered = to_ascii_lower(normalized.as_str());
    let lower = chars_of(lowered.as_str());
    let mut from: usize = 0;
    while from < lower.len()
        invariant
            from <= lower@.len(),
            target@ == "__mv_version"@,
            target@.len() == 12,
            version_from(lower@, 0) == version_from(lower@, from as int),
            version_literal(sql@) == version_from(lower@, 0),
        decreases lower@.len() - from,
    {
        if lower.len() - from >= target.len() && stands_at(&lower, &target, from) {
            let number = read_compared_number(&lower, from + 12);
            if number.is_some() {
                return number;
            }
        }
        from = from + 1;
    }
    None
}

/// The version of the only view of a statement: the one that the statement asks for, or else the
/// stored one.
pub open spec fn mv_version<B, C, D, T, W, S>(
    sql: Seq<char>,
    names: Seq<Seq<char>>,
    registry: MaterializedViewRegistry<B, C, DbspPersistedState<D, T>, W, S>,
) -> Option<u64> {
    if names.len() != 1 {
        None
    } else if version_literal(sql) is Some {
        version_literal(sql)
    } else {
        match registry::find_view(registry.views(), names[0]) {
            Some(at) => match registry.views()[at as int].persisted {
                Some(state) => Some(state.version),
                None => None,
            },
            None => None,
        }
    }
}

/// The version of the only view of a statement.
pub fn determine_mv_version<B, C, D, T, W, S>(
    sql: &str,
    mv_names: &Vec<String>,
    registry: &MaterializedViewRegistry<B, C, DbspPersistedState<D, T>, W, S>,
) -> (version: Option<u64>)
    ensures
        version == mv_version(sql@, texts(mv_names@), *registry),
{
    if mv_names.len() != 1 {
        return None;
    }
    let asked = parse_mv_version_literal(sql);
    if asked.is_some() {
        return asked;
    }
    match registry.get(mv_names[0].as_str()) {
        Some(at) => match registry.view(at).dbsp_state() {
            Some(state) => Some(state.version),
            None => None,
        },
        None => None,
    }
}

/// A word of a statement: names are made of its characters, and those beside it are none of them.
pub open spec fn is_word(s: Seq<char>, from: int, to: int) -> bool {
    &&& 0 <= from < to <= s.len()
    &&& forall|i: int| from <= i < to ==> word_char(#[trigger] s[i])
    &&& from > 0 ==> !word_char(s[from - 1])
    &&& to < s.len() ==> !word_char(s[to])
}

proof fn lemma_word_start(s: Seq<char>, n: nat)
    requires
        n <= s.len(),
    ensures
        word_start(s, n) <= n,
        forall|i: int| word_start(s, n) <= i < n ==> word_char(#[trigger] s[i]),
        word_start(s, n) > 0 ==> !word_char(s[word_start(s, n) - 1]),
    decreases n,
{
    if n > 0 && word_char(s[n - 1]) {
        lemma_word_start(s, (n - 1) as nat);
    }
}

/// The views that a statement names are the names of views among its words: each word is looked
/// at, and nothing else is.
#[verifier::rlimit(40)]
pub proof fn law_named_views_are_words(s: Seq<char>, n: nat, name: Seq<char>)
    requires
        n <= s.len(),
    ensures
        mv_names_within(s, n).contains(name) <==> exists|from: int, to: int|
            #[trigger] is_word(s, from, to) && to <= n && mv_name(s.subrange(from, to)) == Some(
                name,
            ),
    decreases n,
{
    if n > 0 {
        law_named_views_are_words(s, (n - 1) as nat, name);
        let before = mv_names_within(s, (n - 1) as nat);
        lemma_word_start(s, n);
        let start = word_start(s, n) as int;
        match mv_name_before(s, n) {
            Some(found) => {
                assert(is_word(s, start, n as int));
                if !before.contains(found) {
                    assert(before.push(found)[before.len() as int] == found);
                    assert forall|i: int| 0 <= i < before.len() implies before.push(found)[i]
                        == before[i] by {}
                }
                if before.contains(name) {
                    let i = choose|i: int| 0 <= i < before.len() && before[i] == name;
                    assert(mv_names_within(s, n)[i] == name);
                }
            },
            None => {},
        }
        if mv_names_within(s, n).contains(name) && !before.contains(name) {
            let i = choose|i: int|
                0 <= i < mv_names_within(s, n).len() && mv_names_within(s, n)[i] == name;
            assert(mv_name_before(s, n) == Some(name));
            assert(is_word(s, start, n as int));
        }
        if exists|from: int, to: int|
            #[trigger] is_word(s, from, to) && to <= n && mv_name(s.subrange(from, to)) == Some(
                name,
            ) {
            let (from, to) = choose|from: int, to: int|
                #[trigger] is_word(s, from, to) && to <= n && mv_name(s.subrange(from, to)) == Some(
                    name,
                );
            if to == n {
                if start < from {
                    assert(word_char(s[from - 1]));
                }
                if from < start {
                    assert(word_char(s[start - 1]));
                }
                assert(mv_name_before(s, n) == Some(name));
            } else {
                assert(before.contains(name));
            }
        }
    } else {
        assert forall|from: int, to: int| !(#[trigger] is_word(s, from, to) && to <= n) by {}
    }
}

/// The name of a view begins with `mv_` and can be one of a namespace; a name in quotes is meant
/// as it stands, another one in small letters.
pub proof fn law_names_of_views(word: Seq<char>)
    ensures
        mv_name(word) matches Some(name) ==> {
            &&& name.len() >= 3
            &&& name.take(3) == "mv_"@
            &&& namespaces::view_namespace(name) is Ok
            &&& name == text::ascii_lowered(word) || word == seq!['"'] + name + seq!['"']
        },
        word.len() >= 3 && word.take(3) == "mv_"@ && namespaces::view_namespace(word) is Ok ==> {
            &&& mv_name(seq!['"'] + word + seq!['"']) == Some(word)
            &&& text::ascii_lowered(word) == word ==> mv_name(word) == Some(word)
        },
        word.len() < 2 || word[0] != '"' ==> mv_name(word) == mv_name(text::ascii_lowered(word)),
{
    reveal_strlit("mv_");
    text::law_texts_in_one_case(word);
    let quoted = seq!['"'] + word + seq!['"'];
    assert(quoted.subrange(1, quoted.len() - 1) =~= word);
    if word.len() >= 3 {
        assert(word.subrange(0, 3) =~= word.take(3));
        if word.take(3) == "mv_"@ {
            assert(word[0] == word.take(3)[0]);
        }
    }
    if word.len() >= 2 && word.first() == '"' && word.last() == '"' {
        assert(seq!['"'] + word.subrange(1, word.len() - 1) + seq!['"'] =~= word);
    }
    match mv_name(word) {
        Some(name) => {
            assert(name.subrange(0, 3) =~= name.take(3));
        },
        None => {},
    }
    if word.len() < 2 || word[0] != '"' {
        if word.len() > 0 {
            text::law_letter_case(word[0]);
            assert(text::ascii_lowered(word)[0] == text::ascii_lower(word[0]));
        }
    }
}

/// Whitespace and control characters before a statement do not matter to whether it follows a
/// view; behind them stands `tail` in letters of either case, and then whitespace or nothing.
#[verifier::rlimit(40)]
pub proof fn law_statements_that_follow_a_view(sql: Seq<char>, lead: char)
    ensures
        text::whitespace(lead) || (lead as u32) < 0x20 || lead as u32 == 0x7F ==> tail_statement(
            seq![lead] + sql,
        ) == tail_statement(sql),
        sql.len() > 0 && 0x20 < (sql[0] as u32) < 0x7F ==> (tail_statement(sql) <==> {
            &&& sql.len() >= 4
            &&& sql[0] == 't' || sql[0] == 'T'
            &&& sql[1] == 'a' || sql[1] == 'A'
            &&& sql[2] == 'i' || sql[2] == 'I'
            &&& sql[3] == 'l' || sql[3] == 'L'
            &&& sql.len() > 4 ==> text::whitespace(sql[4])
        }),
{
    assert((seq![lead] + sql).skip(1) =~= sql);
    reveal_strlit("tail");
    if sql.len() > 0 && 0x20 < (sql[0] as u32) < 0x7F {
        text::law_whitespace(sql[0]);
        assert(without_lead(sql) == sql);
        if sql.len() >= 4 {
            let low = text::ascii_lowered(sql.take(4));
            assert(low.len() == 4);
            assert(low[0] == text::ascii_lower(sql[0]));
            assert(low[1] == text::ascii_lower(sql[1]));
            assert(low[2] == text::ascii_lower(sql[2]));
            assert(low[3] == text::ascii_lower(sql[3]));
            text::law_letter_case(sql[0]);
            text::law_letter_case(sql[1]);
            text::law_letter_case(sql[2]);
            text::law_letter_case(sql[3]);
            if low[0] == 't' && low[1] == 'a' && low[2] == 'i' && low[3] == 'l' {
                assert(low =~= "tail"@);
            }
        }
    }
}

/// A placeholder: a dollar sign and the digits behind it.
pub open spec fn is_placeholder(s: Seq<char>, at: int, end: int, number: nat) -> bool {
    &&& 0 <= at && at + 1 < end <= s.len()
    &&& s[at] == '$'
    &&& forall|i: int| at < i < end ==> '0' <= #[trigger] s[i] <= '9'
    &&& end < s.len() ==> !('0' <= s[end] <= '9')
    &&& text::digits_value(s.subrange(at + 1, end)) == number
}

proof fn lemma_placeholder(s: Seq<char>, at: int, end: int, number: nat)
    requires
        is_placeholder(s, at, end, number),
    ensures
        placeholder_at(s, at) == Some(number),
        text::digits_end(s, at + 1) == end,
{
    text::law_digits_end_at_the_first_other(s, at + 1);
    let found = text::digits_end(s, at + 1);
    if found < end {
        assert('0' <= s[found] <= '9');
    }
    if end < found {
        assert('0' <= s[end] <= '9');
    }
}

/// The largest number of a placeholder is the number of one, and no placeholder has a larger one;
/// without placeholders it is zero. Numbers that no parameter can have are not looked at.
pub proof fn law_largest_placeholder(s: Seq<char>, n: nat, at: int, end: int, number: nat)
    requires
        n <= s.len(),
    ensures
        at < n && is_placeholder(s, at, end, number) && number <= usize::MAX
            ==> largest_placeholder(s, n) >= number,
        largest_placeholder(s, n) > 0 ==> exists|i: int|
            0 <= i < n && #[trigger] placeholder_at(s, i) == Some(largest_placeholder(s, n)),
        !s.contains('$') ==> largest_placeholder(s, n) == 0,
    decreases n,
{
    if n > 0 {
        law_largest_placeholder(s, (n - 1) as nat, at, end, number);
        if at == n - 1 && is_placeholder(s, at, end, number) {
            lemma_placeholder(s, at, end, number);
        }
        if placeholder_at(s, n - 1) is Some {
            assert(s[n - 1] == '$');
        }
    }
}

/// A placeholder outside of quotes is replaced by the value of its number, the first value being
/// number one; one without a value is an error.
pub proof fn law_placeholder_is_replaced(
    s: Seq<char>,
    at: int,
    end: int,
    number: nat,
    values: Seq<ParamView>,
)
    requires
        is_placeholder(s, at, end, number),
        number <= usize::MAX,
    ensures
        1 <= number <= values.len() ==> match with_values(s, end, false, values) {
            Ok(rest) => with_values(s, at, false, values) == Ok::<Seq<char>, PlaceholderError>(
                params::literal(values[number - 1]) + rest,
            ),
            Err(error) => with_values(s, at, false, values) == Err::<Seq<char>, PlaceholderError>(
                error,
            ),
        },
        number == 0 ==> with_values(s, at, false, values) == Err::<Seq<char>, PlaceholderError>(
            PlaceholderError::Zero,
        ),
        number > values.len() && number > 0 ==> with_values(s, at, false, values) == Err::<
            Seq<char>,
            PlaceholderError,
        >(PlaceholderError::Missing(number as usize)),
{
    lemma_placeholder(s, at, end, number);
}

/// What stands in quotes is kept as it is, up to and with the quote that ends it.
pub proof fn law_quoted_text_is_kept(s: Seq<char>, from: int, to: int, values: Seq<ParamView>)
    requires
        0 <= from <= to < s.len(),
        s[to] == '\'',
        forall|i: int| from <= i < to ==> #[trigger] s[i] != '\'',
    ensures
        match with_values(s, to + 1, false, values) {
            Ok(rest) => with_values(s, from, true, values) == Ok::<Seq<char>, PlaceholderError>(
                s.subrange(from, to + 1) + rest,
            ),
            Err(error) => with_values(s, from, true, values) == Err::<
                Seq<char>,
                PlaceholderError,
            >(error),
        },
    decreases to - from,
{
    if from < to {
        law_quoted_text_is_kept(s, from + 1, to, values);
        match with_values(s, to + 1, false, values) {
            Ok(rest) => {
                assert(seq![s[from]] + (s.subrange(from + 1, to + 1) + rest) =~= s.subrange(
                    from,
                    to + 1,
                ) + rest);
            },
            Err(_) => {},
        }
    } else {
        match with_values(s, to + 1, false, values) {
            Ok(rest) => {
                assert(seq![s[to]] + rest =~= s.subrange(from, to + 1) + rest);
            },
            Err(_) => {},
        }
    }
}

/// A version that a statement asks for: the column of versions, an equals sign and a number of
/// sixty-four bits, with spaces between them or not.
pub open spec fn asks_for_version(s: Seq<char>, at: int, version: u64) -> bool {
    exists|sign: int, start: int, end: int|
        {
            &&& 0 <= at && at + 12 <= sign && sign < start && start < end <= s.len()
            &&& text::occurs_at(s, "__mv_version"@, at)
            &&& forall|i: int| at + 12 <= i < sign ==> ascii_space(#[trigger] s[i])
            &&& s[sign] == '='
            &&& forall|i: int| sign < i < start ==> ascii_space(#[trigger] s[i])
            &&& forall|i: int| start <= i < end ==> '0' <= #[trigger] s[i] <= '9'
            &&& end < s.len() ==> !('0' <= s[end] <= '9')
            &&& #[trigger] text::digits_value(s.subrange(start, end)) == version
            &&& #[trigger] runs(sign, start)
        }
}

/// Two positions of which the first stands before the other.
pub open spec fn runs(from: int, to: int) -> bool {
    from < to
}

proof fn lemma_spaces_end(s: Seq<char>, from: int)
    requires
        0 <= from <= s.len(),
    ensures
        from <= spaces_end(s, from) <= s.len(),
        forall|i: int| from <= i < spaces_end(s, from) ==> ascii_space(#[trigger] s[i]),
        spaces_end(s, from) < s.len() ==> !ascii_space(s[spaces_end(s, from)]),
    decreases s.len() - from,
{
    if from < s.len() && ascii_space(s[from]) {
        lemma_spaces_end(s, from + 1);
    }
}

/// The version that a statement asks for is the first that stands in it.
pub proof fn law_version_asked_for_is_the_first(s: Seq<char>, from: int)
    requires
        0 <= from,
    ensures
        version_from(s, from) matches Some(version) ==> exists|at: int|
            from <= at && #[trigger] asks_for_version(s, at, version),
        version_from(s, from) is None ==> forall|at: int|
            from <= at < s.len() && text::occurs_at(s, "__mv_version"@, at)
                ==> #[trigger] compared_number(s, at + 12) is None,
    decreases s.len() - from,
{
    reveal_strlit("__mv_version");
    if from < s.len() {
        if text::occurs_at(s, "__mv_version"@, from) && compared_number(s, from + 12) is Some {
            let version = compared_number(s, from + 12)->0;
            lemma_spaces_end(s, from + 12);
            let sign = spaces_end(s, from + 12);
            lemma_spaces_end(s, sign + 1);
            let start = spaces_end(s, sign + 1);
            text::law_digits_end_at_the_first_other(s, start);
            let end = text::digits_end(s, start);
            assert(runs(sign, start));
            assert(text::digits_value(s.subrange(start, end)) == version);
            assert(asks_for_version(s, from, version));
        } else {
            law_version_asked_for_is_the_first(s, from + 1);
        }
    }
}

/// The version of the view that a statement names: the one that it asks for, or else the one that
/// is stored for the view. A statement that names several views, or none, has no version.
pub proof fn law_version_of_the_view<B, C, D, T, W, S>(
    sql: Seq<char>,
    names: Seq<Seq<char>>,
    registry: MaterializedViewRegistry<B, C, DbspPersistedState<D, T>, W, S>,
)
    ensures
        names.len() != 1 ==> mv_version(sql, names, registry) is None,
        names.len() == 1 ==> (version_literal(sql) matches Some(version) ==> mv_version(
            sql,
            names,
            registry,
        ) == Some(version)),
        names.len() == 1 && version_literal(sql) is None ==> match mv_version(
            sql,
            names,
            registry,
        ) {
            Some(version) => exists|i: int|
                0 <= i < registry.views().len() && (#[trigger] registry.views()[i]).name == names[0]
                    && (registry.views()[i].persisted matches Some(state) && state.version
                    == version),
            None => forall|i: int|
                0 <= i < registry.views().len() && (#[trigger] registry.views()[i]).name == names[0]
                    && (forall|j: int|
                    0 <= j < i ==> (#[trigger] registry.views()[j]).name != names[0])
                    ==> registry.views()[i].persisted is None,
        },
{
    if names.len() == 1 {
        registry::law_views_are_found_by_name(registry.views(), names[0]);
        match registry::find_view(registry.views(), names[0]) {
            Some(at) => {
                assert(registry.views()[at as int].name == names[0]);
                assert forall|i: int|
                    0 <= i < registry.views().len() && (#[trigger] registry.views()[i]).name
                        == names[0] && (forall|j: int|
                        0 <= j < i ==> (#[trigger] registry.views()[j]).name
                            != names[0]) implies i == at by {
                    if at < i {
                        assert(registry.views()[at as int].name != names[0]);
                    }
                }
            },
            None => {},
        }
    }
}

} // verus!
