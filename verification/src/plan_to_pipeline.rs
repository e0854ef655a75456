//! From the plan of a circuit to the parts of the pipeline that fills a materialized view.

use vstd::prelude::*;

use crate::namespaces;
use crate::namespaces::{materialized_view, NamespaceError};
use crate::text::same_text;

verus! {

/// What a node of a circuit does.
#[derive(Debug, PartialEq, Eq)]
pub enum NodeKind {
    /// Brings in the rows of a table.
    Source(String),
    /// Fills the view of this name.
    Sink(String),
    /// Works on rows between the two.
    Other,
}

/// A node of a circuit, with the nodes that it reads.
#[derive(Debug, PartialEq, Eq)]
pub struct CircuitNode {
    pub id: usize,
    pub kind: NodeKind,
    pub inputs: Vec<usize>,
}

/// The plan of a circuit.
#[derive(Debug, PartialEq, Eq)]
pub struct CircuitPlan {
    pub root: usize,
    pub nodes: Vec<CircuitNode>,
}

/// Why a view has no pipeline.
#[derive(Clone, Copy, Debug, PartialEq, Eq, Structural)]
pub enum PipelineError {
    /// No node fills the view.
    SinkNotFound,
    /// A node on the way to the source reads no other.
    NoInput,
    /// A node reads one that is not in the plan.
    MissingNode,
    /// The nodes read each other in a circle.
    Circle,
    /// The name of the view cannot be stored.
    Namespace(NamespaceError),
}

/// A node fills the view of this name.
pub open spec fn fills(node: CircuitNode, view_name: Seq<char>) -> bool {
    node.kind matches NodeKind::Sink(name) && name@ == view_name
}

/// The first of the first `n` nodes that fills the view.
pub open spec fn sink_within(nodes: Seq<CircuitNode>, view_name: Seq<char>, n: nat) -> Option<nat>
    decreases n,
{
    if n == 0 {
        None
    } else {
        match sink_within(nodes, view_name, (n - 1) as nat) {
            Some(at) => Some(at),
            None => if fills(nodes[n - 1], view_name) {
                Some((n - 1) as nat)
            } else {
                None
            },
        }
    }
}

/// The first of the first `n` nodes with an identifier.
pub open spec fn node_within(nodes: Seq<CircuitNode>, id: usize, n: nat) -> Option<nat>
    decreases n,
{
    if n == 0 {
        None
    } else {
        match node_within(nodes, id, (n - 1) as nat) {
            Some(at) => Some(at),
            None => if nodes[n - 1].id == id {
                Some((n - 1) as nat)
            } else {
                None
            },
        }
    }
}

/// What reading the first input of a node leads to: the source that it is, or the position of the
/// next node.
pub open spec fn step_from(nodes: Seq<CircuitNode>, at: nat) -> Result<nat, PipelineError> {
    if nodes[at as int].inputs@.len() == 0 {
        Err(PipelineError::NoInput)
    } else {
        match node_within(nodes, nodes[at as int].inputs@[0], nodes.len()) {
            Some(next) => Ok(next),
            None => Err(PipelineError::MissingNode),
        }
    }
}

/// The table of the source that is reached from a node by reading first inputs, in at most
/// `steps` steps.
pub open spec fn source_from(nodes: Seq<CircuitNode>, at: nat, steps: nat) -> Result<
    Seq<char>,
    PipelineError,
>
    decreases steps,
{
    match nodes[at as int].kind {
        NodeKind::Source(table) => Ok(table@),
        _ => match step_from(nodes, at) {
            Err(error) => Err(error),
            Ok(next) => if steps == 0 {
                Err(PipelineError::Circle)
            } else {
                source_from(nodes, next, (steps - 1) as nat)
            },
        },
    }
}

/// A table or an error as mathematical values.
pub open spec fn table_outcome(result: Result<String, PipelineError>) -> Result<
    Seq<char>,
    PipelineError,
> {
    match result {
        Ok(table) => Ok(table@),
        Err(error) => Err(error),
    }
}

proof fn lemma_sink_stays(nodes: Seq<CircuitNode>, view_name: Seq<char>, n: nat, m: nat)
    requires
        n <= m,
        sink_within(nodes, view_name, n) is Some,
    ensures
        sink_within(nodes, view_name, m) == sink_within(nodes, view_name, n),
    decreases m,
{
    if n < m {
        lemma_sink_stays(nodes, view_name, n, (m - 1) as nat);
    }
}

proof fn lemma_node_stays(nodes: Seq<CircuitNode>, id: usize, n: nat, m: nat)
    requires
        n <= m,
        node_within(nodes, id, n) is Some,
    ensures
        node_within(nodes, id, m) == node_within(nodes, id, n),
    decreases m,
{
    if n < m {
        lemma_node_stays(nodes, id, n, (m - 1) as nat);
    }
}

proof fn lemma_node_found(nodes: Seq<CircuitNode>, id: usize, n: nat)
    requires
        n <= nodes.len(),
    ensures
        node_within(nodes, id, n) matches Some(at) ==> at < n && nodes[at as int].id == id,
    decreases n,
{
    if n > 0 {
        lemma_node_found(nodes, id, (n - 1) as nat);
    }
}

impl CircuitPlan {
    /// The position of the first node with an identifier.
    pub fn node(&self, id: usize) -> (found: Option<usize>)
        ensures
            match found {
                Some(at) => node_within(self.nodes@, id, self.nodes@.len()) == Some(at as nat)
                    && at < self.nodes@.len(),
                None => node_within(self.nodes@, id, self.nodes@.len()) is None,
            },
    {
        let mut i: usize = 0;
        while i < self.nodes.len()
            invariant
                i <= self.nodes@.len(),
                node_within(self.nodes@, id, i as nat) is None,
            decreases self.nodes@.len() - i,
        {
            if self.nodes[i].id == id {
                proof {
                    lemma_node_stays(self.nodes@, id, (i + 1) as nat, self.nodes@.len());
                }
                return Some(i);
            }
            i = i + 1;
        }
        None
    }
}

/// The parts of a pipeline: the table that it reads, and where the rows of the view are kept.
#[derive(Debug, PartialEq, Eq)]
pub struct PipelineParts {
    pub table: String,
    pub sink_namespace: String,
}

/// Finds the parts of pipelines in the plan of a circuit.
pub struct PipelineFromCircuit<'a> {
    pub plan: &'a CircuitPlan,
}

impl<'a> PipelineFromCircuit<'a> {
    /// The position of the first node that fills a view.
    pub fn find_sink(&self, view_name: &str) -> (found: Option<usize>)
        ensures
            match found {
                Some(at) => sink_within(self.plan.nodes@, view_name@, self.plan.nodes@.len())
                    == Some(at as nat) && at < self.plan.nodes@.len(),
                None => sink_within(
                    self.plan.nodes@,
                    view_name@,
                    self.plan.nodes@.len(),
                ) is None,
            },
    {
        let mut i: usize = 0;
        while i < self.plan.nodes.len()
            invariant
                i <= self.plan.nodes@.len(),
                sink_within(self.plan.nodes@, view_name@, i as nat) is None,
            decreases self.plan.nodes@.len() - i,
        {
            let found: bool = match &self.plan.nodes[i].kind {
                NodeKind::Sink(name) => same_text(name.as_str(), view_name),
                _ => false,
            };
            if found {
                proof {
                    lemma_sink_stays(
                        self.plan.nodes@,
                        view_name@,
                        (i + 1) as nat,
                        self.plan.nodes@.len(),
                    );
                }
                return Some(i);
            }
            i = i + 1;
        }
        None
    }

    /// The table of the source that is reached from a node by reading first inputs. A walk with
    /// more steps than there are nodes runs in a circle.
    pub fn walk_to_source(&self, start: usize) -> (result: Result<String, PipelineError>)
        requires
            start < self.plan.nodes@.len(),
        ensures
            table_outcome(result) == source_from(
                self.plan.nodes@,
                start as nat,
                self.plan.nodes@.len(),
            ),
    {
        let ghost nodes = self.plan.nodes@;
        let mut current: usize = start;
        let mut steps: usize = self.plan.nodes.len();
        loop
            invariant
                nodes == self.plan.nodes@,
                current < nodes.len(),
                steps <= nodes.len(),
                source_from(nodes, start as nat, nodes.len()) == source_from(
                    nodes,
                    current as nat,
                    steps as nat,
                ),
            decreases steps,
        {
            let node: &CircuitNode = &self.plan.nodes[current];
            match &node.kind {
                NodeKind::Source(table) => {
                    return Ok(table.clone());
                },
                _ => {},
            }
            if node.inputs.len() == 0 {
                return Err(PipelineError::NoInput);
            }
            let next: usize = match self.plan.node(node.inputs[0]) {
                Some(next) => next,
                None => {
                    return Err(PipelineError::MissingNode);
                },
            };
            if steps == 0 {
                return Err(PipelineError::Circle);
            }
            current = next;
            steps = steps - 1;
        }
    }

    /// The parts of the pipeline that fills a view.
    pub fn pipeline_parts(&self, view_name: &str) -> (result: Result<PipelineParts, PipelineError>)
        ensures
            ({
                let nodes = self.plan.nodes@;
                match sink_within(nodes, view_name@, nodes.len()) {
                    None => result == Err::<PipelineParts, PipelineError>(
                        PipelineError::SinkNotFound,
                    ),
                    Some(sink) => match source_from(nodes, sink, nodes.len()) {
                        Err(error) => result == Err::<PipelineParts, PipelineError>(error),
                        Ok(table) => match namespaces::view_namespace(view_name@) {
                            Err(error) => result == Err::<PipelineParts, PipelineError>(
                                PipelineError::Namespace(error),
                            ),
                            Ok(namespace) => result matches Ok(parts) && parts.table@ == table
                                && parts.sink_namespace@ == namespace,
                        },
                    },
                }
            }),
    {
        let sink: usize = match self.find_sink(view_name) {
            Some(sink) => sink,
            None => {
                return Err(PipelineError::SinkNotFound);
            },
        };
        let table = match self.walk_to_source(sink) {
            Ok(table) => table,
            Err(error) => {
                return Err(error);
            },
        };
        match materialized_view(view_name) {
            Ok(sink_namespace) => Ok(PipelineParts { table, sink_namespace }),
            Err(error) => Err(PipelineError::Namespace(error)),
        }
    }
}

/// A node is no source, and reading its first input leads to another node.
pub open spec fn goes_on(nodes: Seq<CircuitNode>, at: nat) -> bool {
    at < nodes.len() && !(nodes[at as int].kind is Source) && step_from(nodes, at) is Ok
}

/// The position after `k` steps.
pub open spec fn walked(nodes: Seq<CircuitNode>, at: nat, k: nat) -> nat
    decreases k,
{
    if k == 0 {
        at
    } else {
        match step_from(nodes, walked(nodes, at, (k - 1) as nat)) {
            Ok(next) => next,
            Err(error) => walked(nodes, at, (k - 1) as nat),
        }
    }
}

proof fn lemma_walked_shift(nodes: Seq<CircuitNode>, at: nat, k: nat)
    requires
        step_from(nodes, at) is Ok,
    ensures
        walked(nodes, at, k + 1) == walked(nodes, step_from(nodes, at)->Ok_0, k),
    decreases k,
{
    if k == 0 {
        reveal_with_fuel(walked, 2);
    } else {
        lemma_walked_shift(nodes, at, (k - 1) as nat);
    }
}

/// A walk does not end within some steps exactly where it goes on at each of them.
proof fn lemma_endless(nodes: Seq<CircuitNode>, at: nat, steps: nat)
    requires
        at < nodes.len(),
    ensures
        source_from(nodes, at, steps) == Err::<Seq<char>, PipelineError>(PipelineError::Circle)
            <==> forall|k: nat| k <= steps ==> goes_on(nodes, #[trigger] walked(nodes, at, k)),
    decreases steps,
{
    assert(walked(nodes, at, 0) == at);
    if goes_on(nodes, at) {
        let next = step_from(nodes, at)->Ok_0;
        lemma_node_found(nodes, nodes[at as int].inputs@[0], nodes.len());
        if steps > 0 {
            let fewer = (steps - 1) as nat;
            lemma_endless(nodes, next, fewer);
            if source_from(nodes, next, fewer) == Err::<Seq<char>, PipelineError>(
                PipelineError::Circle,
            ) {
                assert forall|k: nat| k <= steps implies goes_on(
                    nodes,
                    #[trigger] walked(nodes, at, k),
                ) by {
                    if k > 0 {
                        lemma_walked_shift(nodes, at, (k - 1) as nat);
                        assert(goes_on(nodes, walked(nodes, next, (k - 1) as nat)));
                    }
                }
            } else if forall|k: nat| k <= steps ==> goes_on(
                nodes,
                #[trigger] walked(nodes, at, k),
            ) {
                assert forall|k: nat| k <= fewer implies goes_on(
                    nodes,
                    #[trigger] walked(nodes, next, k),
                ) by {
                    lemma_walked_shift(nodes, at, k);
                    assert(goes_on(nodes, walked(nodes, at, k + 1)));
                }
            }
        } else {
            assert forall|k: nat| k <= steps implies goes_on(
                nodes,
                #[trigger] walked(nodes, at, k),
            ) by {}
        }
    } else {
        assert(!goes_on(nodes, walked(nodes, at, 0)));
    }
}

/// Of more positions than there are nodes, two are the same.
proof fn lemma_position_repeats(nodes: Seq<CircuitNode>, at: nat) -> (pair: (nat, nat))
    requires
        forall|k: nat| k <= nodes.len() ==> goes_on(nodes, #[trigger] walked(nodes, at, k)),
    ensures
        pair.0 < pair.1 <= nodes.len(),
        walked(nodes, at, pair.0) == walked(nodes, at, pair.1),
{
    let count = nodes.len() as int;
    let positions = Seq::new((count + 1) as nat, |k: int| walked(nodes, at, k as nat) as int);
    if positions.no_duplicates() {
        positions.unique_seq_to_set();
        let all = vstd::set_lib::set_int_range(0, count);
        vstd::set_lib::lemma_int_range(0, count);
        assert(positions.to_set().subset_of(all)) by {
            assert forall|p: int| positions.to_set().contains(p) implies all.contains(p) by {
                let k = choose|k: int| 0 <= k < positions.len() && positions[k] == p;
                assert(goes_on(nodes, walked(nodes, at, k as nat)));
            }
        }
        vstd::set_lib::lemma_len_subset(positions.to_set(), all);
        assert(false);
        (0, 0)
    } else {
        let (i, j) = choose|i: int, j: int|
            0 <= i < j < positions.len() && positions[i] == positions[j];
        assert(exists|i: int, j: int|
            0 <= i < j < positions.len() && positions[i] == positions[j]);
        (i as nat, j as nat)
    }
}

/// A walk that came to one position twice comes to the same positions ever after.
proof fn lemma_walk_repeats(nodes: Seq<CircuitNode>, at: nat, i: nat, j: nat, k: nat)
    requires
        i < j <= k,
        walked(nodes, at, i) == walked(nodes, at, j),
    ensures
        walked(nodes, at, k) == walked(nodes, at, (k - (j - i)) as nat),
    decreases k,
{
    if k > j {
        lemma_walk_repeats(nodes, at, i, j, (k - 1) as nat);
    }
}

proof fn lemma_always_goes_on(nodes: Seq<CircuitNode>, at: nat, i: nat, j: nat, k: nat)
    requires
        i < j <= nodes.len(),
        walked(nodes, at, i) == walked(nodes, at, j),
        forall|k: nat| k <= nodes.len() ==> goes_on(nodes, #[trigger] walked(nodes, at, k)),
    ensures
        goes_on(nodes, walked(nodes, at, k)),
    decreases k,
{
    if k > nodes.len() {
        lemma_walk_repeats(nodes, at, i, j, k);
        lemma_always_goes_on(nodes, at, i, j, (k - (j - i)) as nat);
    }
}

/// A walk that did not reach a source within as many steps as there are nodes never does: more
/// steps do not help.
pub proof fn law_circle_never_ends(nodes: Seq<CircuitNode>, at: nat, steps: nat)
    requires
        at < nodes.len(),
        source_from(nodes, at, nodes.len()) == Err::<Seq<char>, PipelineError>(
            PipelineError::Circle,
        ),
    ensures
        source_from(nodes, at, steps) == Err::<Seq<char>, PipelineError>(PipelineError::Circle),
{
    lemma_endless(nodes, at, nodes.len());
    let (i, j) = lemma_position_repeats(nodes, at);
    assert forall|k: nat| k <= steps implies goes_on(nodes, #[trigger] walked(nodes, at, k)) by {
        lemma_always_goes_on(nodes, at, i, j, k);
    }
    lemma_endless(nodes, at, steps);
}

/// The node that fills a view is the first sink of its name.
pub proof fn law_sink_is_the_first_of_its_view(
    nodes: Seq<CircuitNode>,
    view_name: Seq<char>,
    n: nat,
)
    requires
        n <= nodes.len(),
    ensures
        match sink_within(nodes, view_name, n) {
            Some(at) => {
                &&& at < n
                &&& nodes[at as int].kind matches NodeKind::Sink(name) && name@ == view_name
                &&& forall|i: int|
                    0 <= i < at ==> !((#[trigger] nodes[i]).kind matches NodeKind::Sink(name)
                        && name@ == view_name)
            },
            None => forall|i: int|
                0 <= i < n ==> !((#[trigger] nodes[i]).kind matches NodeKind::Sink(name) && name@
                    == view_name),
        },
    decreases n,
{
    if n > 0 {
        law_sink_is_the_first_of_its_view(nodes, view_name, (n - 1) as nat);
    }
}

/// A step goes to the first node with the identifier of the first input.
pub proof fn law_step_goes_to_the_first_input(nodes: Seq<CircuitNode>, at: nat)
    requires
        at < nodes.len(),
    ensures
        match step_from(nodes, at) {
            Ok(next) => {
                &&& next < nodes.len()
                &&& nodes[at as int].inputs@.len() > 0
                &&& nodes[next as int].id == nodes[at as int].inputs@[0]
                &&& forall|i: int|
                    0 <= i < next ==> (#[trigger] nodes[i]).id != nodes[at as int].inputs@[0]
            },
            Err(PipelineError::NoInput) => nodes[at as int].inputs@.len() == 0,
            Err(error) => {
                &&& error is MissingNode
                &&& nodes[at as int].inputs@.len() > 0
                &&& forall|i: int|
                    0 <= i < nodes.len() ==> (#[trigger] nodes[i]).id
                        != nodes[at as int].inputs@[0]
            },
        },
{
    if nodes[at as int].inputs@.len() > 0 {
        lemma_first_with_id(nodes, nodes[at as int].inputs@[0], nodes.len());
    }
}

proof fn lemma_first_with_id(nodes: Seq<CircuitNode>, id: usize, n: nat)
    requires
        n <= nodes.len(),
    ensures
        match node_within(nodes, id, n) {
            Some(at) => at < n && nodes[at as int].id == id && forall|i: int|
                0 <= i < at ==> (#[trigger] nodes[i]).id != id,
            None => forall|i: int| 0 <= i < n ==> (#[trigger] nodes[i]).id != id,
        },
    decreases n,
{
    if n > 0 {
        lemma_first_with_id(nodes, id, (n - 1) as nat);
    }
}

/// The table of a node is that of the first source on the way along the inputs, and where a step
/// fails the walk fails as the step does.
pub proof fn law_table_is_that_of_the_first_source(nodes: Seq<CircuitNode>, at: nat, steps: nat)
    ensures
        match source_from(nodes, at, steps) {
            Ok(table) => exists|k: nat|
                {
                    &&& k <= steps
                    &&& nodes[#[trigger] walked(nodes, at, k) as int].kind matches NodeKind::Source(
                        found,
                    ) && found@ == table
                    &&& forall|j: nat|
                        j < k ==> !(nodes[#[trigger] walked(nodes, at, j) as int].kind is Source)
                            && step_from(nodes, walked(nodes, at, j)) is Ok
                },
            Err(error) => exists|k: nat|
                {
                    &&& k <= steps
                    &&& !(nodes[#[trigger] walked(nodes, at, k) as int].kind is Source)
                    &&& match step_from(nodes, walked(nodes, at, k)) {
                        Err(fault) => error == fault,
                        Ok(_) => k == steps && error is Circle,
                    }
                    &&& forall|j: nat|
                        j < k ==> !(nodes[#[trigger] walked(nodes, at, j) as int].kind is Source)
                            && step_from(nodes, walked(nodes, at, j)) is Ok
                },
        },
{
    lemma_walk_ends(nodes, at, steps, 0);
}

/// A walk from the `gone`-th node of the way ends as the rest of the way does.
proof fn lemma_walk_ends(nodes: Seq<CircuitNode>, at: nat, steps: nat, gone: nat)
    requires
        forall|j: nat|
            j < gone ==> !(nodes[#[trigger] walked(nodes, at, j) as int].kind is Source)
                && step_from(nodes, walked(nodes, at, j)) is Ok,
    ensures
        match source_from(nodes, walked(nodes, at, gone), steps) {
            Ok(table) => exists|k: nat|
                {
                    &&& k <= steps + gone
                    &&& nodes[#[trigger] walked(nodes, at, k) as int].kind matches NodeKind::Source(
                        found,
                    ) && found@ == table
                    &&& forall|j: nat|
                        j < k ==> !(nodes[#[trigger] walked(nodes, at, j) as int].kind is Source)
                            && step_from(nodes, walked(nodes, at, j)) is Ok
                },
            Err(error) => exists|k: nat|
                {
                    &&& k <= steps + gone
                    &&& !(nodes[#[trigger] walked(nodes, at, k) as int].kind is Source)
                    &&& match step_from(nodes, walked(nodes, at, k)) {
                        Err(fault) => error == fault,
                        Ok(_) => k == steps + gone && error is Circle,
                    }
                    &&& forall|j: nat|
                        j < k ==> !(nodes[#[trigger] walked(nodes, at, j) as int].kind is Source)
                            && step_from(nodes, walked(nodes, at, j)) is Ok
                },
        },
    decreases steps,
{
    let here = walked(nodes, at, gone);
    if !(nodes[here as int].kind is Source) && step_from(nodes, here) is Ok && steps > 0 {
        assert(walked(nodes, at, gone + 1) == step_from(nodes, here)->Ok_0);
        assert forall|j: nat| j < gone + 1 implies !(nodes[#[trigger] walked(
            nodes,
            at,
            j,
        ) as int].kind is Source) && step_from(nodes, walked(nodes, at, j)) is Ok by {
            if j == gone {
                assert(walked(nodes, at, j) == here);
            }
        }
        lemma_walk_ends(nodes, at, (steps - 1) as nat, gone + 1);
    }
}

} // verus!
