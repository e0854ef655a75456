//! Names under which state is stored.
//!
//! All namespaces follow `<scope>/<identifier>` so that they can be discovered and told apart
//! uniformly.

use vstd::prelude::*;

use crate::text;
use crate::text::{contains_char, push_decimal, push_text, string_of, trim};

verus! {

/// The character between the parts of a namespace.
pub const SEPARATOR: char = '/';

/// The parts of a namespace that a caller names.
#[derive(Clone, Copy, Debug, PartialEq, Eq, Structural)]
pub enum NamespacePart {
    MaterializedViewName,
    SourceName,
    GraphId,
    OperatorSide,
}

/// Why a namespace cannot be built.
#[derive(Clone, Copy, Debug, PartialEq, Eq, Structural)]
pub enum NamespaceError {
    /// The part is empty or holds whitespace only.
    Empty(NamespacePart),
    /// The part holds the separator.
    ContainsSeparator(NamespacePart),
}

/// What validating an already trimmed part gives.
pub open spec fn component_fault(component: Seq<char>, part: NamespacePart) -> Option<
    NamespaceError,
> {
    if component.len() == 0 {
        Some(NamespaceError::Empty(part))
    } else if component.contains(SEPARATOR) {
        Some(NamespaceError::ContainsSeparator(part))
    } else {
        None
    }
}

/// The namespace of a materialized view.
pub open spec fn view_namespace(name: Seq<char>) -> Result<Seq<char>, NamespaceError> {
    match component_fault(text::trimmed(name), NamespacePart::MaterializedViewName) {
        Some(error) => Err(error),
        None => Ok(seq!['m', 'v', '/'] + text::trimmed(name)),
    }
}

/// The namespace of a source.
pub open spec fn source_namespace(name: Seq<char>) -> Result<Seq<char>, NamespaceError> {
    match component_fault(text::trimmed(name), NamespacePart::SourceName) {
        Some(error) => Err(error),
        None => Ok(seq!['s', 'r', 'c', '/'] + text::trimmed(name)),
    }
}

/// The namespace of one side of the state of an operator.
pub open spec fn operator_namespace(graph: Seq<char>, index: nat, side: Seq<char>) -> Result<
    Seq<char>,
    NamespaceError,
> {
    match component_fault(text::trimmed(graph), NamespacePart::GraphId) {
        Some(error) => Err(error),
        None => match component_fault(text::trimmed(side), NamespacePart::OperatorSide) {
            Some(error) => Err(error),
            None => Ok(
                seq!['o', 'p', '/'] + text::trimmed(graph) + seq!['/'] + text::decimal(index) + seq!['/']
                    + text::trimmed(side),
            ),
        },
    }
}

/// A namespace result as the text it stands for.
pub open spec fn namespace_result(result: Result<String, NamespaceError>) -> Result<
    Seq<char>,
    NamespaceError,
> {
    match result {
        Ok(namespace) => Ok(namespace@),
        Err(error) => Err(error),
    }
}

fn validate_component(component: &str, part: NamespacePart) -> (outcome: Result<
    (),
    NamespaceError,
>)
    ensures
        match outcome {
            Ok(_) => component_fault(component@, part) is None,
            Err(error) => component_fault(component@, part) == Some(error),
        },
{
    if component.is_empty() {
        return Err(NamespaceError::Empty(part));
    }
    if contains_char(component, SEPARATOR) {
        return Err(NamespaceError::ContainsSeparator(part));
    }
    Ok(())
}

/// The namespace of a materialized view.
pub fn materialized_view(view_name: &str) -> (namespace: Result<String, NamespaceError>)
    ensures
        namespace_result(namespace) == view_namespace(view_name@),
{
    let name = trim(view_name);
    match validate_component(name.as_str(), NamespacePart::MaterializedViewName) {
        Err(error) => Err(error),
        Ok(_) => {
            let mut out: Vec<char> = vec!['m', 'v', '/'];
            push_text(&mut out, name.as_str());
            Ok(string_of(out))
        },
    }
}

/// The namespace of a source.
pub fn source(source_name: &str) -> (namespace: Result<String, NamespaceError>)
    ensures
        namespace_result(namespace) == source_namespace(source_name@),
{
    let name = trim(source_name);
    match validate_component(name.as_str(), NamespacePart::SourceName) {
        Err(error) => Err(error),
        Ok(_) => {
            let mut out: Vec<char> = vec!['s', 'r', 'c', '/'];
            push_text(&mut out, name.as_str());
            Ok(string_of(out))
        },
    }
}

/// The namespace of one side of the state of an operator.
pub fn operator_state(graph_id: &str, operator_index: usize, side: &str) -> (namespace: Result<
    String,
    NamespaceError,
>)
    ensures
        namespace_result(namespace) == operator_namespace(
            graph_id@,
            operator_index as nat,
            side@,
        ),
{
    let graph = trim(graph_id);
    let side_name = trim(side);
    match validate_component(graph.as_str(), NamespacePart::GraphId) {
        Err(error) => {
            return Err(error);
        },
        Ok(_) => {},
    }
    match validate_component(side_name.as_str(), NamespacePart::OperatorSide) {
        Err(error) => {
            return Err(error);
        },
        Ok(_) => {},
    }
    let mut out: Vec<char> = vec!['o', 'p', '/'];
    push_text(&mut out, graph.as_str());
    out.push('/');
    push_decimal(&mut out, operator_index as u64);
    out.push('/');
    push_text(&mut out, side_name.as_str());
    assert(out@ =~= seq!['o', 'p', '/'] + text::trimmed(graph_id@) + seq!['/'] + text::decimal(
        operator_index as nat,
    ) + seq!['/'] + text::trimmed(side@));
    Ok(string_of(out))
}

/// Two views share a namespace only if their names agree up to surrounding whitespace.
pub proof fn law_view_namespaces_are_distinct(a: Seq<char>, b: Seq<char>)
    requires
        view_namespace(a) is Ok,
        view_namespace(a) == view_namespace(b),
    ensures
        text::trimmed(a) == text::trimmed(b),
{
    assert(text::trimmed(a) =~= view_namespace(a)->Ok_0.skip(3));
    assert(text::trimmed(b) =~= view_namespace(b)->Ok_0.skip(3));
}

/// Two sources share a namespace only if their names agree up to surrounding whitespace.
pub proof fn law_source_namespaces_are_distinct(a: Seq<char>, b: Seq<char>)
    requires
        source_namespace(a) is Ok,
        source_namespace(a) == source_namespace(b),
    ensures
        text::trimmed(a) == text::trimmed(b),
{
    assert(text::trimmed(a) =~= source_namespace(a)->Ok_0.skip(4));
    assert(text::trimmed(b) =~= source_namespace(b)->Ok_0.skip(4));
}

/// Namespaces of different scopes never collide.
pub proof fn law_scopes_are_disjoint(
    view: Seq<char>,
    source: Seq<char>,
    graph: Seq<char>,
    index: nat,
    side: Seq<char>,
)
    requires
        view_namespace(view) is Ok,
        source_namespace(source) is Ok,
        operator_namespace(graph, index, side) is Ok,
    ensures
        view_namespace(view) != source_namespace(source),
        view_namespace(view) != operator_namespace(graph, index, side),
        source_namespace(source) != operator_namespace(graph, index, side),
{
    assert(view_namespace(view)->Ok_0[0] == 'm');
    assert(source_namespace(source)->Ok_0[0] == 's');
    assert(operator_namespace(graph, index, side)->Ok_0[0] == 'o');
}

/// The text before the first separator is settled by the whole text.
proof fn lemma_split_at_separator(a: Seq<char>, ta: Seq<char>, b: Seq<char>, tb: Seq<char>)
    requires
        !a.contains(SEPARATOR),
        !b.contains(SEPARATOR),
        a + seq![SEPARATOR] + ta == b + seq![SEPARATOR] + tb,
    ensures
        a == b,
        ta == tb,
{
    let left = a + seq![SEPARATOR] + ta;
    let right = b + seq![SEPARATOR] + tb;
    if a.len() < b.len() {
        assert(left[a.len() as int] == SEPARATOR);
        assert(right[a.len() as int] == b[a.len() as int]);
        assert(false);
    }
    if b.len() < a.len() {
        assert(right[b.len() as int] == SEPARATOR);
        assert(left[b.len() as int] == a[b.len() as int]);
        assert(false);
    }
    assert forall|i: int| 0 <= i < a.len() implies a[i] == b[i] by {
        assert(left[i] == right[i]);
    }
    assert(a =~= b);
    assert(ta =~= left.skip(a.len() as int + 1));
    assert(tb =~= right.skip(b.len() as int + 1));
}

/// Two operator states share a namespace only if graph, operator and side agree.
pub proof fn law_operator_namespaces_are_distinct(
    graph_a: Seq<char>,
    index_a: nat,
    side_a: Seq<char>,
    graph_b: Seq<char>,
    index_b: nat,
    side_b: Seq<char>,
)
    requires
        operator_namespace(graph_a, index_a, side_a) is Ok,
        operator_namespace(graph_a, index_a, side_a) == operator_namespace(
            graph_b,
            index_b,
            side_b,
        ),
    ensures
        text::trimmed(graph_a) == text::trimmed(graph_b),
        index_a == index_b,
        text::trimmed(side_a) == text::trimmed(side_b),
{
    let a = operator_namespace(graph_a, index_a, side_a)->Ok_0;
    let b = operator_namespace(graph_b, index_b, side_b)->Ok_0;
    let rest_a = text::decimal(index_a) + seq![SEPARATOR] + text::trimmed(side_a);
    let rest_b = text::decimal(index_b) + seq![SEPARATOR] + text::trimmed(side_b);
    assert(a.skip(3) =~= text::trimmed(graph_a) + seq![SEPARATOR] + rest_a);
    assert(b.skip(3) =~= text::trimmed(graph_b) + seq![SEPARATOR] + rest_b);
    lemma_split_at_separator(text::trimmed(graph_a), rest_a, text::trimmed(graph_b), rest_b);
    text::lemma_decimal_digits(index_a);
    text::lemma_decimal_digits(index_b);
    lemma_split_at_separator(
        text::decimal(index_a),
        text::trimmed(side_a),
        text::decimal(index_b),
        text::trimmed(side_b),
    );
}

/// A part of a namespace is a text with something in it besides whitespace at its ends, and without
/// the separator; else the part is told with what it lacks.
pub proof fn law_parts_of_namespaces(name: Seq<char>)
    ensures
        match view_namespace(name) {
            Ok(namespace) => {
                &&& namespace.take(3) == "mv/"@
                &&& namespace.skip(3) == text::trimmed(name)
                &&& namespace.len() > 3
                &&& !namespace.skip(3).contains('/')
            },
            Err(NamespaceError::Empty(part)) => part is MaterializedViewName && text::trimmed(
                name,
            ).len() == 0,
            Err(NamespaceError::ContainsSeparator(part)) => part is MaterializedViewName
                && text::trimmed(name).contains('/'),
        },
        match source_namespace(name) {
            Ok(namespace) => {
                &&& namespace.take(4) == "src/"@
                &&& namespace.skip(4) == text::trimmed(name)
                &&& namespace.len() > 4
                &&& !namespace.skip(4).contains('/')
            },
            Err(NamespaceError::Empty(part)) => part is SourceName && text::trimmed(name).len()
                == 0,
            Err(NamespaceError::ContainsSeparator(part)) => part is SourceName && text::trimmed(
                name,
            ).contains('/'),
        },
{
    reveal_strlit("mv/");
    reveal_strlit("src/");
    if view_namespace(name) is Ok {
        let namespace = view_namespace(name)->Ok_0;
        assert(namespace.take(3) =~= "mv/"@);
        assert(namespace.skip(3) =~= text::trimmed(name));
    }
    if source_namespace(name) is Ok {
        let namespace = source_namespace(name)->Ok_0;
        assert(namespace.take(4) =~= "src/"@);
        assert(namespace.skip(4) =~= text::trimmed(name));
    }
}

/// The namespace of an operator names its graph, its number and its side, with separators between
/// them; of two parts at fault the graph is told.
pub proof fn law_parts_of_operator_namespaces(graph: Seq<char>, index: nat, side: Seq<char>)
    ensures
        match operator_namespace(graph, index, side) {
            Ok(namespace) => {
                let g = text::trimmed(graph).len() as int;
                let s = text::trimmed(side).len() as int;
                &&& g > 0 && s > 0
                &&& namespace.len() > g + s + 5
                &&& namespace.take(3) == "op/"@
                &&& namespace.subrange(3, 3 + g) == text::trimmed(graph)
                &&& namespace[3 + g] == '/'
                &&& text::all_digits(namespace.subrange(4 + g, namespace.len() - s - 1))
                &&& text::digits_value(namespace.subrange(4 + g, namespace.len() - s - 1)) == index
                &&& namespace[namespace.len() - s - 1] == '/'
                &&& namespace.skip(namespace.len() - s) == text::trimmed(side)
            },
            Err(NamespaceError::Empty(part)) => part is GraphId && text::trimmed(graph).len() == 0
                || part is OperatorSide && text::trimmed(side).len() == 0,
            Err(NamespaceError::ContainsSeparator(part)) => part is GraphId && text::trimmed(
                graph,
            ).contains('/') || part is OperatorSide && text::trimmed(side).contains('/'),
        },
        text::trimmed(graph).len() == 0 ==> operator_namespace(graph, index, side) == Err::<
            Seq<char>,
            NamespaceError,
        >(NamespaceError::Empty(NamespacePart::GraphId)),
{
    reveal_strlit("op/");
    text::lemma_decimal_digits(index);
    if operator_namespace(graph, index, side) is Ok {
        let namespace = operator_namespace(graph, index, side)->Ok_0;
        let g = text::trimmed(graph).len() as int;
        let s = text::trimmed(side).len() as int;
        assert(namespace.take(3) =~= "op/"@);
        assert(namespace.subrange(3, 3 + g) =~= text::trimmed(graph));
        assert(namespace.subrange(4 + g, namespace.len() - s - 1) =~= text::decimal(index));
        assert(namespace.skip(namespace.len() - s) =~= text::trimmed(side));
    }
}

} // verus!
