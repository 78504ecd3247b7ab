//! The template interpreter: documents of variable declarations and blocks,
//! and what running them against a database gives.
//!
//! A document is run from top to bottom. A variable declaration writes a
//! variable. A block runs its children in order: a query group asks the
//! database and binds what comes back, a text fragment is resolved and
//! appended to the output. A block with a loop marker runs again and again
//! until one of its queries fails.
//!
//! What the database answers is not known beforehand. The meaning of a run
//! is therefore stated for given answers: one outcome for every request of
//! every query group of every pass of every block.

use crate::db::{make_onerow_request, may_answer, DataStore, SqlValue};
use crate::error::PersonnelError;
use crate::record::{Fields, Person, Record};
use crate::utils::{merge, resolve, written, XmlVariables};
use vstd::prelude::*;

verus! {

/// A named query of a query group. A request that lacks its name or its
/// statement is skipped.
pub struct Request {
    pub name: Option<String>,
    pub request: Option<String>,
}

/// A child of a block.
pub enum BlockChild {
    /// A query group: named queries, asked in order.
    Sql(Vec<Request>),
    /// A text fragment.
    Html(String),
    /// Anything else; it is ignored.
    Other,
}

/// A block: children that are run in order, once or again and again.
pub struct Block {
    pub children: Vec<BlockChild>,
    /// The variable that is written after every complete pass, ...
    pub set: Option<String>,
    /// ... and the value that is written to it.
    pub value: Option<String>,
    /// Whether the block carries a loop marker.
    pub looping: bool,
}

/// A top-level node of a document.
pub enum Node {
    Block(Block),
    /// A variable declaration: name and value, where the node has them.
    Variable(Option<String>, Option<String>),
    /// Anything else; it is ignored.
    Other,
}

/// A declared parameter of a document: name and default, where the
/// declaration has them.
pub struct Param {
    pub name: Option<String>,
    pub default: Option<String>,
}

/// How a run goes on.
#[derive(Clone, Copy, PartialEq, Eq, Structural)]
pub enum Flow {
    /// With the next step.
    Continue,
    /// Not within this block: a query failed.
    Stopped,
    /// Not at all: a cell could not be decoded.
    Fatal,
}

/// What a query gave.
pub ghost enum QueryOutcome {
    /// One row, as a record of its columns' texts.
    Row(Fields),
    /// No row, or a refusal or failure of the database.
    Failed,
    /// A row with a cell whose bytes are not UTF-8.
    Undecodable,
}

/// The state of a run: the variables, the output so far, and how it goes on.
pub ghost struct Progress {
    pub vars: Fields,
    pub output: Seq<char>,
    pub flow: Flow,
}

/// The most passes that a block is run for.
pub const ITERATION_LIMIT: u64 = 0xffff_ffff_ffff_ffff;

/// The outcome that an answer of the query binder stands for.
pub open spec fn outcome_of(answer: Result<Person, PersonnelError>) -> QueryOutcome {
    match answer {
        Ok(person) => QueryOutcome::Row(person@),
        Err(e) => if e is FromUtf8Error {
            QueryOutcome::Undecodable
        } else {
            QueryOutcome::Failed
        },
    }
}

/// The name under which a column of a named query's row is bound: the
/// query's name, a dot, the column's name.
pub open spec fn binding_name(prefix: Seq<char>, column: Seq<char>) -> Seq<char> {
    prefix + seq!['.'] + column
}

/// The variables after every column of `row` is written under its binding
/// name, in the row's order.
pub open spec fn bind_row(vars: Fields, prefix: Seq<char>, row: Fields) -> Fields
    decreases row.len(),
{
    if row.len() == 0 {
        vars
    } else {
        written(
            bind_row(vars, prefix, row.drop_last()),
            binding_name(prefix, row.last().0),
            row.last().1,
        )
    }
}

/// Whether a request has both its name and its statement, and is therefore
/// asked.
pub open spec fn is_asked(request: Request) -> bool {
    request.name is Some && request.request is Some
}

/// The statement that is sent for a request: its text, resolved against the
/// variables of the moment.
pub open spec fn statement_of(request: Request, vars: Fields) -> Seq<char>
    recommends
        is_asked(request),
{
    resolve(vars, request.request->0@)
}

/// The state after the outcome of a query named `name`: a row is bound under
/// the name, a failure stops the block, an undecodable cell stops the run.
pub open spec fn after_outcome(name: Seq<char>, p: Progress, outcome: QueryOutcome) -> Progress {
    match outcome {
        QueryOutcome::Row(row) => Progress { vars: bind_row(p.vars, name, row), ..p },
        QueryOutcome::Failed => Progress { flow: Flow::Stopped, ..p },
        QueryOutcome::Undecodable => Progress { flow: Flow::Fatal, ..p },
    }
}

/// The state after one request: a skipped request changes nothing, an asked
/// one gives what its outcome gives.
pub open spec fn after_request(request: Request, p: Progress, outcome: QueryOutcome) -> Progress {
    if !is_asked(request) {
        p
    } else {
        after_outcome(request.name->0@, p, outcome)
    }
}

/// The state after a query group, given one outcome for each of its
/// requests. Requests after the first that does not continue are not asked.
pub open spec fn after_group(
    requests: Seq<Request>,
    p: Progress,
    outcomes: Seq<QueryOutcome>,
) -> Progress
    decreases requests.len(),
{
    if requests.len() == 0 {
        p
    } else {
        let q = after_group(requests.drop_last(), p, outcomes.drop_last());
        if q.flow != Flow::Continue {
            q
        } else {
            after_request(requests.last(), q, outcomes.last())
        }
    }
}

/// The state after one child of a block, given the outcomes for its requests
/// where it is a query group.
pub open spec fn after_child(
    child: BlockChild,
    p: Progress,
    outcomes: Seq<QueryOutcome>,
) -> Progress {
    match child {
        BlockChild::Sql(requests) => after_group(requests@, p, outcomes),
        BlockChild::Html(text) => Progress { output: p.output + resolve(p.vars, text@), ..p },
        BlockChild::Other => p,
    }
}

/// The state after the children of a block are run in order, given the
/// outcomes for each child. Children after the first that does not continue
/// are not run.
pub open spec fn after_children(
    children: Seq<BlockChild>,
    p: Progress,
    outcomes: Seq<Seq<QueryOutcome>>,
) -> Progress
    decreases children.len(),
{
    if children.len() == 0 {
        p
    } else {
        let q = after_children(children.drop_last(), p, outcomes.drop_last());
        if q.flow != Flow::Continue {
            q
        } else {
            after_child(children.last(), q, outcomes.last())
        }
    }
}

/// The state after a variable is declared: where both name and value are
/// there, the value is resolved and written; else nothing changes.
pub open spec fn after_declaration(
    name: Option<String>,
    value: Option<String>,
    p: Progress,
) -> Progress {
    match (name, value) {
        (Some(k), Some(v)) => Progress { vars: written(p.vars, k@, resolve(p.vars, v@)), ..p },
        _ => p,
    }
}

/// The state after one pass of a block: its children are run, and where all
/// of them continue, the block's variable is written.
pub open spec fn after_pass(block: Block, p: Progress, outcomes: Seq<Seq<QueryOutcome>>) -> Progress {
    let q = after_children(block.children@, p, outcomes);
    if q.flow != Flow::Continue {
        q
    } else {
        after_declaration(block.set, block.value, q)
    }
}

/// The state after as many passes of a block as `outcomes` holds.
pub open spec fn after_passes(
    block: Block,
    p: Progress,
    outcomes: Seq<Seq<Seq<QueryOutcome>>>,
) -> Progress
    decreases outcomes.len(),
{
    if outcomes.len() == 0 {
        p
    } else {
        after_pass(block, after_passes(block, p, outcomes.drop_last()), outcomes.last())
    }
}

/// Whether `outcomes` holds the passes of a whole run of the block: at least
/// one pass; a further pass only after a pass that continues, and only with
/// a loop marker; and no end before a pass that does not continue, unless
/// the block has no loop marker or the limit of passes is reached.
pub open spec fn is_block_run(
    block: Block,
    p: Progress,
    outcomes: Seq<Seq<Seq<QueryOutcome>>>,
) -> bool {
    &&& 1 <= outcomes.len() <= ITERATION_LIMIT
    &&& forall|j: int|
        1 <= j < outcomes.len() ==> block.looping && (#[trigger] after_passes(
            block,
            p,
            outcomes.take(j),
        )).flow == Flow::Continue
    &&& (!block.looping || after_passes(block, p, outcomes).flow != Flow::Continue
        || outcomes.len() == ITERATION_LIMIT)
}

/// The state with which the document goes on after a block: a failed query
/// has ended the block and nothing more.
pub open spec fn leave_block(p: Progress) -> Progress {
    if p.flow == Flow::Stopped {
        Progress { flow: Flow::Continue, ..p }
    } else {
        p
    }
}

/// The state after one node, given the outcomes of its passes where it is a
/// block.
pub open spec fn after_node(
    node: Node,
    p: Progress,
    outcomes: Seq<Seq<Seq<QueryOutcome>>>,
) -> Progress {
    match node {
        Node::Block(block) => leave_block(after_passes(block, p, outcomes)),
        Node::Variable(name, value) => after_declaration(name, value, p),
        Node::Other => p,
    }
}

/// The state after the nodes of a document are run in order. Nodes after an
/// undecodable cell are not run.
pub open spec fn after_nodes(
    nodes: Seq<Node>,
    p: Progress,
    outcomes: Seq<Seq<Seq<Seq<QueryOutcome>>>>,
) -> Progress
    decreases nodes.len(),
{
    if nodes.len() == 0 {
        p
    } else {
        let q = after_nodes(nodes.drop_last(), p, outcomes.drop_last());
        if q.flow != Flow::Continue {
            q
        } else {
            after_node(nodes.last(), q, outcomes.last())
        }
    }
}

/// Whether `outcomes` holds, for every block that the document reaches, the
/// passes of a whole run of it.
pub open spec fn is_document_run(
    nodes: Seq<Node>,
    p: Progress,
    outcomes: Seq<Seq<Seq<Seq<QueryOutcome>>>>,
) -> bool
    decreases nodes.len(),
{
    &&& outcomes.len() == nodes.len()
    &&& nodes.len() > 0 ==> {
        let q = after_nodes(nodes.drop_last(), p, outcomes.drop_last());
        &&& is_document_run(nodes.drop_last(), p, outcomes.drop_last())
        &&& (q.flow == Flow::Continue && nodes.last() is Block) ==> is_block_run(
            nodes.last()->Block_0,
            q,
            outcomes.last(),
        )
    }
}

/// The state in which a document starts: the parameters merged into an
/// empty store, and no output.
pub open spec fn start_of(params: Fields) -> Progress {
    Progress { vars: merge(Fields::empty(), params), output: Seq::empty(), flow: Flow::Continue }
}

/// How a run goes on after a step that gave `res`.
pub open spec fn flow_of(res: Result<bool, PersonnelError>) -> Flow {
    match res {
        Ok(true) => Flow::Continue,
        Ok(false) => Flow::Stopped,
        Err(_) => Flow::Fatal,
    }
}

/// Whether `res` is what a document gives that is run from `params` with the
/// given outcomes: the output where the run came to its end, the decoding
/// error where a cell stopped it.
pub open spec fn is_rendering(
    nodes: Seq<Node>,
    params: Fields,
    outcomes: Seq<Seq<Seq<Seq<QueryOutcome>>>>,
    res: Result<String, PersonnelError>,
) -> bool {
    let end = after_nodes(nodes, start_of(params), outcomes);
    &&& is_document_run(nodes, start_of(params), outcomes)
    &&& match res {
        Ok(text) => end.flow == Flow::Continue && text@ == end.output,
        Err(e) => end.flow == Flow::Fatal && e is FromUtf8Error,
    }
}

/// Whether the store may have given this outcome for the statement, asked
/// without parameters: it is the outcome of an answer that the store may
/// give.
pub open spec fn may_be_outcome<S: DataStore>(
    store: S,
    statement: Seq<char>,
    outcome: QueryOutcome,
) -> bool {
    exists|answer: Result<Person, PersonnelError>| #[trigger]
        may_answer(store, statement, Seq::<SqlValue>::empty(), answer) && outcome_of(answer)
            == outcome
}

/// Whether the outcomes of a query group are the store's: every request
/// that is asked has an outcome that the store may have given for its
/// statement of the moment.
pub open spec fn is_group_asked<S: DataStore>(
    store: S,
    requests: Seq<Request>,
    p: Progress,
    outcomes: Seq<QueryOutcome>,
) -> bool
    decreases requests.len(),
{
    requests.len() > 0 ==> {
        let q = after_group(requests.drop_last(), p, outcomes.drop_last());
        &&& is_group_asked(store, requests.drop_last(), p, outcomes.drop_last())
        &&& (q.flow == Flow::Continue && is_asked(requests.last())) ==> may_be_outcome(
            store,
            statement_of(requests.last(), q.vars),
            outcomes.last(),
        )
    }
}

/// Whether the outcomes of one pass over the children of a block are the
/// store's.
pub open spec fn is_pass_asked<S: DataStore>(
    store: S,
    children: Seq<BlockChild>,
    p: Progress,
    outcomes: Seq<Seq<QueryOutcome>>,
) -> bool
    decreases children.len(),
{
    children.len() > 0 ==> {
        let q = after_children(children.drop_last(), p, outcomes.drop_last());
        &&& is_pass_asked(store, children.drop_last(), p, outcomes.drop_last())
        &&& (q.flow == Flow::Continue && children.last() is Sql) ==> is_group_asked(
            store,
            children.last()->Sql_0@,
            q,
            outcomes.last(),
        )
    }
}

/// Whether the outcomes of the pass at position `j` of a block's run are the
/// store's.
pub open spec fn is_pass_asked_at<S: DataStore>(
    store: S,
    block: Block,
    p: Progress,
    outcomes: Seq<Seq<Seq<QueryOutcome>>>,
    j: int,
) -> bool {
    is_pass_asked(store, block.children@, after_passes(block, p, outcomes.take(j)), outcomes[j])
}

/// Whether the outcomes of all passes of a block's run are the store's.
pub open spec fn is_block_asked<S: DataStore>(
    store: S,
    block: Block,
    p: Progress,
    outcomes: Seq<Seq<Seq<QueryOutcome>>>,
) -> bool {
    forall|j: int| 0 <= j < outcomes.len() ==> #[trigger] is_pass_asked_at(store, block, p, outcomes, j)
}

/// Whether the outcomes of a document's run are the store's: in every block
/// that the run reaches, every request that is asked has an outcome that
/// the store may have given for its statement of the moment.
pub open spec fn is_document_asked<S: DataStore>(
    store: S,
    nodes: Seq<Node>,
    p: Progress,
    outcomes: Seq<Seq<Seq<Seq<QueryOutcome>>>>,
) -> bool
    decreases nodes.len(),
{
    nodes.len() > 0 ==> {
        let q = after_nodes(nodes.drop_last(), p, outcomes.drop_last());
        &&& is_document_asked(store, nodes.drop_last(), p, outcomes.drop_last())
        &&& (q.flow == Flow::Continue && nodes.last() is Block) ==> is_block_asked(
            store,
            nodes.last()->Block_0,
            q,
            outcomes.last(),
        )
    }
}

/// Whether `res` is what a document gives that is run from `params` against
/// the store, with the given outcomes as the store's answers.
pub open spec fn is_rendering_from<S: DataStore>(
    store: S,
    nodes: Seq<Node>,
    params: Fields,
    outcomes: Seq<Seq<Seq<Seq<QueryOutcome>>>>,
    res: Result<String, PersonnelError>,
) -> bool {
    &&& is_rendering(nodes, params, outcomes, res)
    &&& is_document_asked(store, nodes, start_of(params), outcomes)
}

/// Once a request does not continue, the rest of the group changes nothing.
proof fn lemma_group_stops(
    requests: Seq<Request>,
    p: Progress,
    outcomes: Seq<QueryOutcome>,
    m: int,
)
    requires
        0 <= m <= requests.len(),
        outcomes.len() == requests.len(),
        after_group(requests.take(m), p, outcomes.take(m)).flow != Flow::Continue,
    ensures
        after_group(requests, p, outcomes) == after_group(requests.take(m), p, outcomes.take(m)),
    decreases requests.len(),
{
    if m == requests.len() {
        assert(requests.take(m) == requests);
        assert(outcomes.take(m) == outcomes);
    } else {
        assert(requests.drop_last().take(m) == requests.take(m));
        assert(outcomes.drop_last().take(m) == outcomes.take(m));
        lemma_group_stops(requests.drop_last(), p, outcomes.drop_last(), m);
    }
}

/// Once a child does not continue, the rest of the pass changes nothing.
proof fn lemma_children_stop(
    children: Seq<BlockChild>,
    p: Progress,
    outcomes: Seq<Seq<QueryOutcome>>,
    m: int,
)
    requires
        0 <= m <= children.len(),
        outcomes.len() == children.len(),
        after_children(children.take(m), p, outcomes.take(m)).flow != Flow::Continue,
    ensures
        after_children(children, p, outcomes) == after_children(
            children.take(m),
            p,
            outcomes.take(m),
        ),
    decreases children.len(),
{
    if m == children.len() {
        assert(children.take(m) == children);
        assert(outcomes.take(m) == outcomes);
    } else {
        assert(children.drop_last().take(m) == children.take(m));
        assert(outcomes.drop_last().take(m) == outcomes.take(m));
        lemma_children_stop(children.drop_last(), p, outcomes.drop_last(), m);
    }
}

/// Once a node does not continue, the rest of the document changes nothing
/// and asks for no passes.
proof fn lemma_nodes_stop(
    nodes: Seq<Node>,
    p: Progress,
    outcomes: Seq<Seq<Seq<Seq<QueryOutcome>>>>,
    m: int,
)
    requires
        0 <= m <= nodes.len(),
        outcomes.len() == nodes.len(),
        is_document_run(nodes.take(m), p, outcomes.take(m)),
        after_nodes(nodes.take(m), p, outcomes.take(m)).flow != Flow::Continue,
    ensures
        after_nodes(nodes, p, outcomes) == after_nodes(nodes.take(m), p, outcomes.take(m)),
        is_document_run(nodes, p, outcomes),
    decreases nodes.len(),
{
    if m == nodes.len() {
        assert(nodes.take(m) == nodes);
        assert(outcomes.take(m) == outcomes);
    } else {
        assert(nodes.drop_last().take(m) == nodes.take(m));
        assert(outcomes.drop_last().take(m) == outcomes.take(m));
        lemma_nodes_stop(nodes.drop_last(), p, outcomes.drop_last(), m);
    }
}

/// Once a request does not continue, nothing more of the group is asked.
proof fn lemma_group_asked_stops<S: DataStore>(
    store: S,
    requests: Seq<Request>,
    p: Progress,
    outcomes: Seq<QueryOutcome>,
    m: int,
)
    requires
        0 <= m <= requests.len(),
        outcomes.len() == requests.len(),
        after_group(requests.take(m), p, outcomes.take(m)).flow != Flow::Continue,
        is_group_asked(store, requests.take(m), p, outcomes.take(m)),
    ensures
        is_group_asked(store, requests, p, outcomes),
    decreases requests.len(),
{
    if m == requests.len() {
        assert(requests.take(m) == requests);
        assert(outcomes.take(m) == outcomes);
    } else {
        assert(requests.drop_last().take(m) == requests.take(m));
        assert(outcomes.drop_last().take(m) == outcomes.take(m));
        lemma_group_asked_stops(store, requests.drop_last(), p, outcomes.drop_last(), m);
        lemma_group_stops(requests.drop_last(), p, outcomes.drop_last(), m);
    }
}

/// Once a child does not continue, nothing more of the pass is asked.
proof fn lemma_pass_asked_stops<S: DataStore>(
    store: S,
    children: Seq<BlockChild>,
    p: Progress,
    outcomes: Seq<Seq<QueryOutcome>>,
    m: int,
)
    requires
        0 <= m <= children.len(),
        outcomes.len() == children.len(),
        after_children(children.take(m), p, outcomes.take(m)).flow != Flow::Continue,
        is_pass_asked(store, children.take(m), p, outcomes.take(m)),
    ensures
        is_pass_asked(store, children, p, outcomes),
    decreases children.len(),
{
    if m == children.len() {
        assert(children.take(m) == children);
        assert(outcomes.take(m) == outcomes);
    } else {
        assert(children.drop_last().take(m) == children.take(m));
        assert(outcomes.drop_last().take(m) == outcomes.take(m));
        lemma_pass_asked_stops(store, children.drop_last(), p, outcomes.drop_last(), m);
        lemma_children_stop(children.drop_last(), p, outcomes.drop_last(), m);
    }
}

/// Once a node does not continue, nothing more of the document is asked.
proof fn lemma_document_asked_stops<S: DataStore>(
    store: S,
    nodes: Seq<Node>,
    p: Progress,
    outcomes: Seq<Seq<Seq<Seq<QueryOutcome>>>>,
    m: int,
)
    requires
        0 <= m <= nodes.len(),
        outcomes.len() == nodes.len(),
        is_document_run(nodes.take(m), p, outcomes.take(m)),
        after_nodes(nodes.take(m), p, outcomes.take(m)).flow != Flow::Continue,
        is_document_asked(store, nodes.take(m), p, outcomes.take(m)),
    ensures
        is_document_asked(store, nodes, p, outcomes),
    decreases nodes.len(),
{
    if m == nodes.len() {
        assert(nodes.take(m) == nodes);
        assert(outcomes.take(m) == outcomes);
    } else {
        assert(nodes.drop_last().take(m) == nodes.take(m));
        assert(outcomes.drop_last().take(m) == outcomes.take(m));
        lemma_document_asked_stops(store, nodes.drop_last(), p, outcomes.drop_last(), m);
        lemma_nodes_stop(nodes.drop_last(), p, outcomes.drop_last(), m);
    }
}

/// A block without a loop marker is run for exactly one pass, whatever its
/// queries give: the state after the block is the state after that pass.
pub proof fn law_single_pass(block: Block, p: Progress, outcomes: Seq<Seq<Seq<QueryOutcome>>>)
    requires
        !block.looping,
        is_block_run(block, p, outcomes),
    ensures
        outcomes.len() == 1,
        after_passes(block, p, outcomes) == after_pass(block, p, outcomes[0]),
{
    if outcomes.len() > 1 {
        assert(after_passes(block, p, outcomes.take(1)).flow == Flow::Continue);
    }
    assert(outcomes.drop_last() == Seq::<Seq<Seq<QueryOutcome>>>::empty());
    assert(after_passes(block, p, outcomes.drop_last()) == p);
}

/// A query group puts nothing out.
pub proof fn lemma_group_keeps_output(
    requests: Seq<Request>,
    p: Progress,
    outcomes: Seq<QueryOutcome>,
)
    ensures
        after_group(requests, p, outcomes).output == p.output,
    decreases requests.len(),
{
    if requests.len() > 0 {
        lemma_group_keeps_output(requests.drop_last(), p, outcomes.drop_last());
    }
}

/// The children of a block only add to the output.
pub proof fn lemma_children_keep_output(
    children: Seq<BlockChild>,
    p: Progress,
    outcomes: Seq<Seq<QueryOutcome>>,
)
    ensures
        p.output.is_prefix_of(after_children(children, p, outcomes).output),
    decreases children.len(),
{
    if children.len() > 0 {
        lemma_children_keep_output(children.drop_last(), p, outcomes.drop_last());
        let q = after_children(children.drop_last(), p, outcomes.drop_last());
        if q.flow == Flow::Continue {
            match children.last() {
                BlockChild::Sql(requests) => {
                    lemma_group_keeps_output(requests@, q, outcomes.last());
                },
                BlockChild::Html(text) => {
                    let longer = q.output + resolve(q.vars, text@);
                    assert(longer.subrange(0, q.output.len() as int) == q.output);
                    assert(longer.subrange(0, p.output.len() as int) == q.output.subrange(
                        0,
                        p.output.len() as int,
                    ));
                },
                BlockChild::Other => {},
            }
        }
    }
}

/// Later passes only add to the output: what the block has put out after
/// its first `j` passes is still there, at the front, after all of them.
pub proof fn lemma_passes_keep_output(
    block: Block,
    p: Progress,
    outcomes: Seq<Seq<Seq<QueryOutcome>>>,
    j: int,
)
    requires
        0 <= j <= outcomes.len(),
    ensures
        after_passes(block, p, outcomes.take(j)).output.is_prefix_of(
            after_passes(block, p, outcomes).output,
        ),
    decreases outcomes.len(),
{
    if j == outcomes.len() {
        assert(outcomes.take(j) == outcomes);
    } else {
        assert(outcomes.drop_last().take(j) == outcomes.take(j));
        lemma_passes_keep_output(block, p, outcomes.drop_last(), j);
        let early = after_passes(block, p, outcomes.take(j)).output;
        let q = after_passes(block, p, outcomes.drop_last());
        lemma_children_keep_output(block.children@, q, outcomes.last());
        let end = after_passes(block, p, outcomes).output;
        assert(q.output.is_prefix_of(end));
        assert(end.subrange(0, early.len() as int) == q.output.subrange(0, early.len() as int));
    }
}

/// A block with a loop marker is run until a pass does not continue: where
/// the run ends before the limit of passes, a query of the last pass failed
/// or gave no row (or a cell could not be decoded), every pass before it
/// was complete, and the output of every earlier pass is kept, at the front
/// of what the block has put out in the end.
pub proof fn law_loop_until_failure(
    block: Block,
    p: Progress,
    outcomes: Seq<Seq<Seq<QueryOutcome>>>,
)
    requires
        block.looping,
        is_block_run(block, p, outcomes),
        outcomes.len() < ITERATION_LIMIT,
    ensures
        after_passes(block, p, outcomes).flow != Flow::Continue,
        forall|j: int|
            1 <= j < outcomes.len() ==> (#[trigger] after_passes(block, p, outcomes.take(j))).flow
                == Flow::Continue,
        forall|j: int|
            0 <= j <= outcomes.len() ==> (#[trigger] after_passes(
                block,
                p,
                outcomes.take(j),
            )).output.is_prefix_of(after_passes(block, p, outcomes).output),
{
    assert forall|j: int| 0 <= j <= outcomes.len() implies (#[trigger] after_passes(
        block,
        p,
        outcomes.take(j),
    )).output.is_prefix_of(after_passes(block, p, outcomes).output) by {
        lemma_passes_keep_output(block, p, outcomes, j);
    }
}

/// Writes every column of `row` under the name of the query that gave it:
/// the query's name, a dot, the column's name.
pub fn bind_columns(vars: &mut XmlVariables, prefix: &str, row: &Person)
    requires
        old(vars).wf(),
    ensures
        final(vars).wf(),
        final(vars)@ == bind_row(old(vars)@, prefix@, row@),
{
    let n: usize = row.len();
    let mut i: usize = 0;
    assert(row@.take(0) == Fields::empty());
    while i < n
        invariant
            n == row@.len(),
            i <= n,
            vars.wf(),
            vars@ == bind_row(old(vars)@, prefix@, row@.take(i as int)),
        decreases n - i,
    {
        let name = prefix.to_owned().concat(".").concat(row.key(i));
        proof {
            reveal_strlit(".");
            assert("."@ == seq!['.']);
            assert(name@ == binding_name(prefix@, row@[i as int].0));
        }
        vars.insert(name.as_str(), row.value(i));
        i += 1;
        proof {
            let upto = row@.take(i as int);
            assert(upto.drop_last() == row@.take(i - 1));
            assert(upto.last() == row@[i - 1]);
        }
    }
    assert(row@.take(n as int) == row@);
}

/// Takes in the answer to the query named `name`: binds the row where there
/// is one, and says how the run goes on: `Ok(true)` after a row, `Ok(false)`
/// after a query that failed or gave no row, the error itself where a cell
/// could not be decoded.
pub fn settle(vars: &mut XmlVariables, name: &str, answer: Result<Person, PersonnelError>) -> (res:
    Result<bool, PersonnelError>)
    requires
        old(vars).wf(),
    ensures
        final(vars).wf(),
        res matches Err(e) ==> e is FromUtf8Error,
        match outcome_of(answer) {
            QueryOutcome::Row(row) => res is Ok && res->Ok_0 && final(vars)@ == bind_row(
                old(vars)@,
                name@,
                row,
            ),
            QueryOutcome::Failed => res is Ok && !res->Ok_0 && final(vars)@ == old(vars)@,
            QueryOutcome::Undecodable => res is Err && final(vars)@ == old(vars)@,
        },
{
    match answer {
        Ok(person) => {
            bind_columns(vars, name, &person);
            Ok(true)
        },
        Err(PersonnelError::FromUtf8Error(e)) => Err(PersonnelError::FromUtf8Error(e)),
        Err(_) => Ok(false),
    }
}

/// The statement that is sent for a request, where the request is asked:
/// its text, resolved against the variables of the moment.
pub fn statement(variables: &XmlVariables, request: &Request) -> (sql: Option<String>)
    ensures
        sql is Some == is_asked(*request),
        sql matches Some(text) ==> text@ == statement_of(*request, variables@),
{
    match (&request.name, &request.request) {
        (Some(_), Some(text)) => Some(variables.replace(text.as_str())),
        _ => None,
    }
}

/// Runs a query group: asks every request that has its name and its
/// statement, in order, each statement resolved against the variables of
/// the moment, and binds what comes back. Ends at the first answer that
/// does not continue.
fn handle_sql<S: DataStore>(
    store: &S,
    requests: &Vec<Request>,
    variables: &mut XmlVariables,
    Ghost(output): Ghost<Seq<char>>,
) -> (res: (Result<bool, PersonnelError>, Ghost<Seq<QueryOutcome>>))
    requires
        old(variables).wf(),
    ensures
        final(variables).wf(),
        res.0 matches Err(e) ==> e is FromUtf8Error,
        res.1@.len() == requests@.len(),
        after_group(
            requests@,
            Progress { vars: old(variables)@, output, flow: Flow::Continue },
            res.1@,
        ) == (Progress { vars: final(variables)@, output, flow: flow_of(res.0) }),
        is_group_asked(
            *store,
            requests@,
            Progress { vars: old(variables)@, output, flow: Flow::Continue },
            res.1@,
        ),
{
    let ghost p0 = Progress { vars: variables@, output, flow: Flow::Continue };
    let ghost mut outcomes: Seq<QueryOutcome> = Seq::empty();
    let n: usize = requests.len();
    let mut i: usize = 0;
    assert(requests@.take(0) == Seq::<Request>::empty());
    while i < n
        invariant
            n == requests@.len(),
            i <= n,
            variables.wf(),
            outcomes.len() == i,
            p0 == (Progress { vars: old(variables)@, output, flow: Flow::Continue }),
            after_group(requests@.take(i as int), p0, outcomes) == (Progress {
                vars: variables@,
                output,
                flow: Flow::Continue,
            }),
            is_group_asked(*store, requests@.take(i as int), p0, outcomes),
        decreases n - i,
    {
        let request = &requests[i];
        let ghost before = Progress { vars: variables@, output, flow: Flow::Continue };
        let ghost earlier = outcomes;
        proof {
            assert(requests@.take(i + 1).drop_last() == requests@.take(i as int));
            assert(requests@.take(i + 1).last() == requests@[i as int]);
        }
        match (&request.name, statement(variables, request)) {
            (Some(name), Some(sql)) => {
                let no_params: Vec<SqlValue> = Vec::new();
                let answer = make_onerow_request(store, sql.as_str(), no_params.as_slice());
                let ghost outcome = outcome_of(answer);
                proof {
                    assert(no_params@ == Seq::<SqlValue>::empty());
                    assert(may_be_outcome(*store, statement_of(*request, before.vars), outcome));
                }
                let res = settle(variables, name.as_str(), answer);
                proof {
                    outcomes = earlier.push(outcome);
                    assert(outcomes.drop_last() == earlier);
                    assert(is_group_asked(*store, requests@.take(i + 1), p0, outcomes));
                    assert(after_request(*request, before, outcome) == (Progress {
                        vars: variables@,
                        output,
                        flow: flow_of(res),
                    }));
                }
                match res {
                    Ok(true) => {},
                    _ => {
                        let ghost padded = outcomes + Seq::new(
                            (n - i - 1) as nat,
                            |k: int| QueryOutcome::Failed,
                        );
                        proof {
                            assert(padded.take(i + 1) == outcomes);
                            assert(after_group(requests@.take(i + 1), p0, outcomes) == (Progress {
                                vars: variables@,
                                output,
                                flow: flow_of(res),
                            }));
                            lemma_group_stops(requests@, p0, padded, i + 1);
                            lemma_group_asked_stops(*store, requests@, p0, padded, i + 1);
                        }
                        return (res, Ghost(padded));
                    },
                }
            },
            _ => {
                proof {
                    outcomes = earlier.push(QueryOutcome::Failed);
                    assert(outcomes.drop_last() == earlier);
                    assert(is_group_asked(*store, requests@.take(i + 1), p0, outcomes));
                }
            },
        }
        i += 1;
    }
    assert(requests@.take(n as int) == requests@);
    (Ok(true), Ghost(outcomes))
}

/// Declares a variable: where both name and value are there, the value is
/// resolved against the variables and written under the name.
pub fn declare(variables: &mut XmlVariables, name: &Option<String>, value: &Option<String>)
    requires
        old(variables).wf(),
    ensures
        final(variables).wf(),
        forall|output: Seq<char>, flow: Flow|
            (#[trigger] after_declaration(
                *name,
                *value,
                Progress { vars: old(variables)@, output, flow },
            )) == (Progress { vars: final(variables)@, output, flow }),
{
    match (name, value) {
        (Some(k), Some(v)) => {
            let resolved = variables.replace(v.as_str());
            variables.insert(k.as_str(), resolved.as_str());
        },
        _ => {},
    }
}

/// Runs the children of a block once, in order, and ends at the first child
/// that does not continue.
fn run_children<S: DataStore>(
    store: &S,
    children: &Vec<BlockChild>,
    variables: &mut XmlVariables,
    output: &mut String,
) -> (res: (Result<bool, PersonnelError>, Ghost<Seq<Seq<QueryOutcome>>>))
    requires
        old(variables).wf(),
    ensures
        final(variables).wf(),
        res.0 matches Err(e) ==> e is FromUtf8Error,
        res.1@.len() == children@.len(),
        after_children(
            children@,
            Progress { vars: old(variables)@, output: old(output)@, flow: Flow::Continue },
            res.1@,
        ) == (Progress { vars: final(variables)@, output: final(output)@, flow: flow_of(res.0) }),
        is_pass_asked(
            *store,
            children@,
            Progress { vars: old(variables)@, output: old(output)@, flow: Flow::Continue },
            res.1@,
        ),
{
    let ghost p0 = Progress { vars: variables@, output: output@, flow: Flow::Continue };
    let ghost mut outcomes: Seq<Seq<QueryOutcome>> = Seq::empty();
    let n: usize = children.len();
    let mut i: usize = 0;
    assert(children@.take(0) == Seq::<BlockChild>::empty());
    while i < n
        invariant
            n == children@.len(),
            i <= n,
            variables.wf(),
            outcomes.len() == i,
            p0 == (Progress { vars: old(variables)@, output: old(output)@, flow: Flow::Continue }),
            after_children(children@.take(i as int), p0, outcomes) == (Progress {
                vars: variables@,
                output: output@,
                flow: Flow::Continue,
            }),
            is_pass_asked(*store, children@.take(i as int), p0, outcomes),
        decreases n - i,
    {
        let ghost earlier = outcomes;
        proof {
            assert(children@.take(i + 1).drop_last() == children@.take(i as int));
            assert(children@.take(i + 1).last() == children@[i as int]);
        }
        match &children[i] {
            BlockChild::Sql(requests) => {
                let answer = handle_sql(store, requests, variables, Ghost(output@));
                let res = answer.0;
                proof {
                    outcomes = earlier.push(answer.1@);
                    assert(outcomes.drop_last() == earlier);
                    assert(is_pass_asked(*store, children@.take(i + 1), p0, outcomes));
                }
                match res {
                    Ok(true) => {},
                    _ => {
                        let ghost padded = outcomes + Seq::new(
                            (n - i - 1) as nat,
                            |k: int| Seq::<QueryOutcome>::empty(),
                        );
                        proof {
                            assert(padded.take(i + 1) == outcomes);
                            assert(after_children(children@.take(i + 1), p0, outcomes) == (Progress {
                                vars: variables@,
                                output: output@,
                                flow: flow_of(res),
                            }));
                            lemma_children_stop(children@, p0, padded, i + 1);
                            lemma_pass_asked_stops(*store, children@, p0, padded, i + 1);
                        }
                        return (res, Ghost(padded));
                    },
                }
            },
            BlockChild::Html(text) => {
                let piece = variables.replace(text.as_str());
                output.append(piece.as_str());
                proof {
                    outcomes = earlier.push(Seq::empty());
                    assert(outcomes.drop_last() == earlier);
                    assert(is_pass_asked(*store, children@.take(i + 1), p0, outcomes));
                }
            },
            BlockChild::Other => {
                proof {
                    outcomes = earlier.push(Seq::empty());
                    assert(outcomes.drop_last() == earlier);
                    assert(is_pass_asked(*store, children@.take(i + 1), p0, outcomes));
                }
            },
        }
        i += 1;
    }
    assert(children@.take(n as int) == children@);
    (Ok(true), Ghost(outcomes))
}

/// Runs a block: one pass after another for as long as the block carries a
/// loop marker, every query of the pass gave a row, and the limit of passes
/// is not reached; one pass where it carries none.
fn run_block<S: DataStore>(
    store: &S,
    block: &Block,
    variables: &mut XmlVariables,
    output: &mut String,
) -> (res: (Result<(), PersonnelError>, Ghost<Seq<Seq<Seq<QueryOutcome>>>>))
    requires
        old(variables).wf(),
    ensures
        final(variables).wf(),
        res.0 matches Err(e) ==> e is FromUtf8Error,
        is_block_run(
            *block,
            Progress { vars: old(variables)@, output: old(output)@, flow: Flow::Continue },
            res.1@,
        ),
        is_block_asked(
            *store,
            *block,
            Progress { vars: old(variables)@, output: old(output)@, flow: Flow::Continue },
            res.1@,
        ),
        leave_block(
            after_passes(
                *block,
                Progress { vars: old(variables)@, output: old(output)@, flow: Flow::Continue },
                res.1@,
            ),
        ) == (Progress {
            vars: final(variables)@,
            output: final(output)@,
            flow: if res.0 is Ok {
                Flow::Continue
            } else {
                Flow::Fatal
            },
        }),
{
    let ghost p0 = Progress { vars: variables@, output: output@, flow: Flow::Continue };
    let ghost mut passes: Seq<Seq<Seq<QueryOutcome>>> = Seq::empty();
    let mut count: u64 = 0;
    loop
        invariant
            variables.wf(),
            count == passes.len(),
            count < ITERATION_LIMIT,
            count >= 1 ==> block.looping,
            p0 == (Progress { vars: old(variables)@, output: old(output)@, flow: Flow::Continue }),
            after_passes(*block, p0, passes) == (Progress {
                vars: variables@,
                output: output@,
                flow: Flow::Continue,
            }),
            forall|j: int|
                1 <= j <= count ==> (#[trigger] after_passes(*block, p0, passes.take(j))).flow
                    == Flow::Continue,
            is_block_asked(*store, *block, p0, passes),
        decreases ITERATION_LIMIT - count,
    {
        let ghost earlier = passes;
        let answer = run_children(store, &block.children, variables, output);
        let res = answer.0;
        count += 1;
        proof {
            passes = earlier.push(answer.1@);
            assert(passes.drop_last() == earlier);
            assert(passes.last() == answer.1@);
            assert forall|j: int| 0 <= j < passes.len() implies #[trigger] is_pass_asked_at(
                *store,
                *block,
                p0,
                passes,
                j,
            ) by {
                if j < earlier.len() {
                    assert(is_pass_asked_at(*store, *block, p0, earlier, j));
                    assert(passes.take(j) == earlier.take(j));
                    assert(passes[j] == earlier[j]);
                } else {
                    assert(passes.take(j) == earlier);
                }
            }
            assert forall|j: int| 1 <= j < count implies block.looping && (#[trigger] after_passes(
                *block,
                p0,
                passes.take(j),
            )).flow == Flow::Continue by {
                assert(passes.take(j) == earlier.take(j));
            }
        }
        match res {
            Err(e) => {
                return (Err(e), Ghost(passes));
            },
            Ok(false) => {
                return (Ok(()), Ghost(passes));
            },
            Ok(true) => {},
        }
        declare(variables, &block.set, &block.value);
        proof {
            assert(passes.take(count as int) == passes);
        }
        if !block.looping || count == ITERATION_LIMIT {
            return (Ok(()), Ghost(passes));
        }
    }
}

/// Runs a document against the data store, from the given parameters, and
/// gives the text that its blocks put out.
///
/// Whatever the store answers, the result is what the document gives
/// for those answers: every statement is asked as it resolves against the
/// variables of the moment, without parameters. It is an error only where
/// a cell of a row could not be decoded.
pub fn render<S: DataStore>(store: &S, nodes: &Vec<Node>, params: Record) -> (res: Result<
    String,
    PersonnelError,
>)
    ensures
        exists|outcomes: Seq<Seq<Seq<Seq<QueryOutcome>>>>|
            is_rendering_from(*store, nodes@, params@, outcomes, res),
        res matches Err(e) ==> e is FromUtf8Error,
{
    let mut variables = XmlVariables::new();
    variables.extend(params);
    let mut output = String::new();
    let ghost p0 = start_of(params@);
    let ghost mut outcomes: Seq<Seq<Seq<Seq<QueryOutcome>>>> = Seq::empty();
    let n: usize = nodes.len();
    let mut i: usize = 0;
    assert(nodes@.take(0) == Seq::<Node>::empty());
    while i < n
        invariant
            n == nodes@.len(),
            i <= n,
            variables.wf(),
            outcomes.len() == i,
            p0 == start_of(params@),
            is_document_run(nodes@.take(i as int), p0, outcomes),
            is_document_asked(*store, nodes@.take(i as int), p0, outcomes),
            after_nodes(nodes@.take(i as int), p0, outcomes) == (Progress {
                vars: variables@,
                output: output@,
                flow: Flow::Continue,
            }),
        decreases n - i,
    {
        let ghost earlier = outcomes;
        proof {
            assert(nodes@.take(i + 1).drop_last() == nodes@.take(i as int));
            assert(nodes@.take(i + 1).last() == nodes@[i as int]);
        }
        match &nodes[i] {
            Node::Block(block) => {
                let answer = run_block(store, block, &mut variables, &mut output);
                proof {
                    outcomes = earlier.push(answer.1@);
                    assert(outcomes.drop_last() == earlier);
                    assert(is_document_run(nodes@.take(i + 1), p0, outcomes));
                    assert(is_document_asked(*store, nodes@.take(i + 1), p0, outcomes));
                }
                match answer.0 {
                    Ok(_) => {},
                    Err(e) => {
                        let ghost padded = outcomes + Seq::new(
                            (n - i - 1) as nat,
                            |k: int| Seq::<Seq<Seq<QueryOutcome>>>::empty(),
                        );
                        let res = Err(e);
                        proof {
                            assert(padded.take(i + 1) == outcomes);
                            lemma_nodes_stop(nodes@, p0, padded, i + 1);
                            lemma_document_asked_stops(*store, nodes@, p0, padded, i + 1);
                            assert(is_rendering_from(*store, nodes@, params@, padded, res));
                        }
                        return res;
                    },
                }
            },
            Node::Variable(name, value) => {
                declare(&mut variables, name, value);
                proof {
                    outcomes = earlier.push(Seq::empty());
                    assert(outcomes.drop_last() == earlier);
                    assert(is_document_asked(*store, nodes@.take(i + 1), p0, outcomes));
                }
            },
            Node::Other => {
                proof {
                    outcomes = earlier.push(Seq::empty());
                    assert(outcomes.drop_last() == earlier);
                    assert(is_document_asked(*store, nodes@.take(i + 1), p0, outcomes));
                }
            },
        }
        i += 1;
    }
    let res = Ok(output);
    proof {
        assert(nodes@.take(n as int) == nodes@);
        assert(is_rendering_from(*store, nodes@, params@, outcomes, res));
    }
    res
}

/// Why a part of a document is passed over: it lacks an attribute that it
/// needs. The run goes on with what follows it.
#[derive(Clone, Copy, Debug, PartialEq, Eq, Structural)]
pub enum Skipped {
    /// A parameter declaration without a name.
    ParamWithoutName,
    /// A variable declaration without a name.
    VariableWithoutName,
    /// A variable declaration with a name and without a value.
    VariableWithoutValue,
    /// A request without a name to bind its row under.
    RequestWithoutName,
    /// A request with a name and without a statement.
    RequestWithoutStatement,
}

impl Skipped {
    /// The words of the diagnostic.
    pub open spec fn words(&self) -> Seq<char> {
        match self {
            Skipped::ParamWithoutName => "Error! Param does not have a name attribute!"@,
            Skipped::VariableWithoutName => "Error! Variable tag does not have name to save."@,
            Skipped::VariableWithoutValue => "Error! Variable tag does not have value."@,
            Skipped::RequestWithoutName => "Error! Request tag does not have name to save."@,
            Skipped::RequestWithoutStatement => "Error! Request tag does not have SQL statement."@,
        }
    }

    /// The diagnostic for the user.
    pub fn message(&self) -> (text: String)
        ensures
            text@ == self.words(),
    {
        match self {
            Skipped::ParamWithoutName => "Error! Param does not have a name attribute!".to_owned(),
            Skipped::VariableWithoutName => "Error! Variable tag does not have name to save.".to_owned(),
            Skipped::VariableWithoutValue => "Error! Variable tag does not have value.".to_owned(),
            Skipped::RequestWithoutName => "Error! Request tag does not have name to save.".to_owned(),
            Skipped::RequestWithoutStatement => "Error! Request tag does not have SQL statement.".to_owned(),
        }
    }
}

/// Why a request is passed over, where it is: the name is looked for first.
pub open spec fn request_skip(request: Request) -> Option<Skipped> {
    if request.name is None {
        Some(Skipped::RequestWithoutName)
    } else if request.request is None {
        Some(Skipped::RequestWithoutStatement)
    } else {
        None
    }
}

/// Why a variable declaration is passed over, where it is.
pub open spec fn declaration_skip(name: Option<String>, value: Option<String>) -> Option<Skipped> {
    if name is None {
        Some(Skipped::VariableWithoutName)
    } else if value is None {
        Some(Skipped::VariableWithoutValue)
    } else {
        None
    }
}

/// Why a parameter declaration is passed over, where it is.
pub open spec fn param_skip(param: Param) -> Option<Skipped> {
    if param.name is None {
        Some(Skipped::ParamWithoutName)
    } else {
        None
    }
}

/// `earlier` with the reason added, where there is one.
pub open spec fn noted(earlier: Seq<Skipped>, reason: Option<Skipped>) -> Seq<Skipped> {
    match reason {
        Some(skipped) => earlier.push(skipped),
        None => earlier,
    }
}

/// The requests of a group that are passed over, in order.
pub open spec fn skipped_requests(requests: Seq<Request>) -> Seq<Skipped>
    decreases requests.len(),
{
    if requests.len() == 0 {
        Seq::empty()
    } else {
        noted(skipped_requests(requests.drop_last()), request_skip(requests.last()))
    }
}

/// The requests of the query groups among the children of a block that are
/// passed over, in order.
pub open spec fn skipped_in_children(children: Seq<BlockChild>) -> Seq<Skipped>
    decreases children.len(),
{
    if children.len() == 0 {
        Seq::empty()
    } else {
        skipped_in_children(children.drop_last()) + match children.last() {
            BlockChild::Sql(requests) => skipped_requests(requests@),
            _ => Seq::empty(),
        }
    }
}

/// What one node holds that is passed over.
pub open spec fn skipped_in_node(node: Node) -> Seq<Skipped> {
    match node {
        Node::Block(block) => skipped_in_children(block.children@),
        Node::Variable(name, value) => noted(Seq::empty(), declaration_skip(name, value)),
        Node::Other => Seq::empty(),
    }
}

/// What a document holds that is passed over whenever the run comes to it,
/// in the order of the document.
pub open spec fn skipped_in_nodes(nodes: Seq<Node>) -> Seq<Skipped>
    decreases nodes.len(),
{
    if nodes.len() == 0 {
        Seq::empty()
    } else {
        skipped_in_nodes(nodes.drop_last()) + skipped_in_node(nodes.last())
    }
}

/// The parameter declarations that are passed over, in order.
pub open spec fn skipped_params(params: Seq<Param>) -> Seq<Skipped>
    decreases params.len(),
{
    if params.len() == 0 {
        Seq::empty()
    } else {
        noted(skipped_params(params.drop_last()), param_skip(params.last()))
    }
}

/// A request is passed over exactly where it is not asked, and a variable
/// declaration exactly where it writes nothing.
pub proof fn lemma_skipped_is_not_run(request: Request, name: Option<String>, value: Option<String>)
    ensures
        request_skip(request) is None <==> is_asked(request),
        forall|p: Progress|
            declaration_skip(name, value) is Some ==> #[trigger] after_declaration(name, value, p)
                == p,
{
}

/// Lists the requests of a group that are passed over.
pub fn list_skipped_requests(requests: &Vec<Request>) -> (list: Vec<Skipped>)
    ensures
        list@ == skipped_requests(requests@),
{
    let mut list: Vec<Skipped> = Vec::new();
    let mut i: usize = 0;
    assert(requests@.take(0) == Seq::<Request>::empty());
    while i < requests.len()
        invariant
            i <= requests.len(),
            list@ == skipped_requests(requests@.take(i as int)),
        decreases requests.len() - i,
    {
        proof {
            assert(requests@.take(i + 1).drop_last() == requests@.take(i as int));
            assert(requests@.take(i + 1).last() == requests@[i as int]);
        }
        if requests[i].name.is_none() {
            list.push(Skipped::RequestWithoutName);
        } else if requests[i].request.is_none() {
            list.push(Skipped::RequestWithoutStatement);
        }
        i += 1;
    }
    assert(requests@.take(requests.len() as int) == requests@);
    list
}

/// Lists what the children of a block hold that is passed over.
pub fn list_skipped_in_children(children: &Vec<BlockChild>) -> (list: Vec<Skipped>)
    ensures
        list@ == skipped_in_children(children@),
{
    let mut list: Vec<Skipped> = Vec::new();
    let mut i: usize = 0;
    assert(children@.take(0) == Seq::<BlockChild>::empty());
    while i < children.len()
        invariant
            i <= children.len(),
            list@ == skipped_in_children(children@.take(i as int)),
        decreases children.len() - i,
    {
        proof {
            assert(children@.take(i + 1).drop_last() == children@.take(i as int));
            assert(children@.take(i + 1).last() == children@[i as int]);
        }
        match &children[i] {
            BlockChild::Sql(requests) => {
                let mut more = list_skipped_requests(requests);
                list.append(&mut more);
            },
            _ => {
                assert(list@ + Seq::<Skipped>::empty() == list@);
            },
        }
        i += 1;
    }
    assert(children@.take(children.len() as int) == children@);
    list
}

/// Lists what a document holds that is passed over whenever the run comes
/// to it: variable declarations without name or value, and requests
/// without name or statement, in the order of the document.
pub fn list_skipped(nodes: &Vec<Node>) -> (list: Vec<Skipped>)
    ensures
        list@ == skipped_in_nodes(nodes@),
{
    let mut list: Vec<Skipped> = Vec::new();
    let mut i: usize = 0;
    assert(nodes@.take(0) == Seq::<Node>::empty());
    while i < nodes.len()
        invariant
            i <= nodes.len(),
            list@ == skipped_in_nodes(nodes@.take(i as int)),
        decreases nodes.len() - i,
    {
        proof {
            assert(nodes@.take(i + 1).drop_last() == nodes@.take(i as int));
            assert(nodes@.take(i + 1).last() == nodes@[i as int]);
        }
        match &nodes[i] {
            Node::Block(block) => {
                let mut more = list_skipped_in_children(&block.children);
                list.append(&mut more);
            },
            Node::Variable(name, value) => {
                let ghost earlier = list@;
                if name.is_none() {
                    list.push(Skipped::VariableWithoutName);
                } else if value.is_none() {
                    list.push(Skipped::VariableWithoutValue);
                }
                assert(list@ == earlier + noted(Seq::empty(), declaration_skip(*name, *value)));
            },
            Node::Other => {
                assert(list@ + Seq::<Skipped>::empty() == list@);
            },
        }
        i += 1;
    }
    assert(nodes@.take(nodes.len() as int) == nodes@);
    list
}

/// Lists the parameter declarations that are passed over: those without a
/// name.
pub fn list_skipped_params(params: &Vec<Param>) -> (list: Vec<Skipped>)
    ensures
        list@ == skipped_params(params@),
{
    let mut list: Vec<Skipped> = Vec::new();
    let mut i: usize = 0;
    assert(params@.take(0) == Seq::<Param>::empty());
    while i < params.len()
        invariant
            i <= params.len(),
            list@ == skipped_params(params@.take(i as int)),
        decreases params.len() - i,
    {
        proof {
            assert(params@.take(i + 1).drop_last() == params@.take(i as int));
            assert(params@.take(i + 1).last() == params@[i as int]);
        }
        if params[i].name.is_none() {
            list.push(Skipped::ParamWithoutName);
        }
        i += 1;
    }
    assert(params@.take(params.len() as int) == params@);
    list
}

} // verus!
