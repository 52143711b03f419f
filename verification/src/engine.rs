//! The run of an app over the records of a dataset: block by block, each block once for
//! each row that has come to it, and no block before the one before it is done.
//!
//! A run starts with one lane for each input. A `map` replaces each lane by one lane for
//! each item of the array that its selector gave, and its `reduce` puts the lanes back, each
//! with the array of what its children held. A `while` is evaluated before each pass; the
//! lanes for which it gave `true` go through the blocks up to its `end`, the others wait
//! there, and the loop is over when all wait or the passes are used up.
//!
//! What fails for one row does not end the run: the error is recorded in the trace of the
//! block, and for that row the blocks that follow record an execution without value or error.
//! What an executor calls fatal ends the run at once.

use crate::app::{AppBlock, closer_of, types_of, well_scoped, App};
use crate::blocks::block::{
    code_view, copy_credentials, or_null, same_origin, secret_of, state_entries, BlockError,
    BlockType, Credential, Env, Failure, InputState, MapState, Output, RunConfig,
};
use crate::json::{Entry, Json, JsonValue};
use crate::project::Project;
use crate::run::{
    copy_row, BlockExecution, BlockStatus, Execution, Options, Run, RunRecord, RunStatus, Status,
    Trace,
};
use crate::store::{last_run, Contents, Store, StoreError, StoredRun, TraceFilter};
use crate::text::same_text;
use vstd::prelude::*;
use vstd::string::StringExecFns;

verus! {

/// What the execution of a block gave for one row.
#[derive(Debug, PartialEq, Eq)]
pub enum Outcome {
    /// The value of the block.
    Value { value: JsonValue },
    /// An error that concerns this row alone.
    Failed { error: String },
    /// An error that ends the run.
    Fatal { error: String },
}

/// Whether a failure of a block ends the run: a credential that is missing does, and a
/// failure of the store. Any other concerns the row alone.
pub open spec fn ends_run(failure: Failure) -> bool {
    failure is MissingCredential || failure is Store
}

/// What the execution of a block gave for one row, from what the block returned: its value,
/// or its error with the message of the error, as one that ends the run or one that concerns
/// the row alone.
pub fn outcome_of(returned: Result<JsonValue, BlockError>) -> (o: Outcome)
    ensures
        match returned {
            Ok(value) => o == (Outcome::Value { value }),
            Err(e) => if ends_run(e@) {
                o is Fatal && o->Fatal_error@ == e@.message()
            } else {
                o is Failed && o->Failed_error@ == e@.message()
            },
        },
{
    match returned {
        Ok(value) => Outcome::Value { value },
        Err(e) => {
            let error = e.message();
            match e {
                BlockError::MissingCredential { .. } => Outcome::Fatal { error },
                BlockError::Store { .. } => Outcome::Fatal { error },
                _ => Outcome::Failed { error },
            }
        },
    }
}

/// What executes the blocks of an app. Nothing is known of what it gives.
pub trait Executor {
    /// Executes the block at a position once for each environment, and gives back what each
    /// execution gave, in the order of the environments.
    fn execute(&mut self, position: usize, envs: &Vec<Env>) -> Vec<Outcome>;

    /// Takes note that a block has been executed for all rows that had come to it: these
    /// are its executions, input by input. An error ends the run.
    fn settled(&mut self, position: usize, executions: &Vec<Vec<BlockExecution>>) -> Result<
        (),
        String,
    >;
}

/// One row of a run at some block: its environment, whether an execution has failed for it,
/// and the `while` block that it has left and whose `end` it waits for, if any.
pub struct Lane {
    pub env: Env,
    pub failed: bool,
    pub parked: Option<usize>,
}

impl Clone for Lane {
    fn clone(&self) -> (r: Lane)
        ensures
            r.failed == self.failed,
            r.parked == self.parked,
            same_origin(r.env, self.env),
    {
        Lane { env: self.env.clone(), failed: self.failed, parked: self.parked }
    }
}

/// The output that a state holds under a name: the first that is written under it.
pub open spec fn held(state: Seq<Output>, block: Seq<char>) -> Option<JsonValue>
    decreases state.len(),
{
    if state.len() == 0 {
        None
    } else if state[0].block@ == block {
        Some(state[0].value)
    } else {
        held(state.subrange(1, state.len() as int), block)
    }
}

/// The position of the first output that a state holds under a name.
pub open spec fn held_at(state: Seq<Output>, block: Seq<char>) -> Option<int>
    decreases state.len(),
{
    if state.len() == 0 {
        None
    } else if state[0].block@ == block {
        Some(0)
    } else {
        match held_at(state.subrange(1, state.len() as int), block) {
            Some(k) => Some(k + 1),
            None => None,
        }
    }
}

/// A state with an output put in, as names and values: in place of the first output under
/// that name, or behind the others where there is none.
pub open spec fn put(state: Seq<Output>, block: Seq<char>, value: Json) -> Seq<Entry> {
    match held_at(state, block) {
        Some(k) => state_entries(state).update(k, Entry { key: block, value }),
        None => state_entries(state).push(Entry { key: block, value }),
    }
}

proof fn lemma_held_at(state: Seq<Output>, block: Seq<char>, k: int)
    requires
        0 <= k <= state.len(),
        forall|j: int| 0 <= j < k ==> state[j].block@ != block,
    ensures
        k < state.len() && state[k].block@ == block ==> held_at(state, block) == Some(k) && held(
            state,
            block,
        ) == Some(state[k].value),
        k == state.len() ==> held_at(state, block) is None && held(state, block) is None,
    decreases k,
{
    if k > 0 {
        let rest = state.subrange(1, state.len() as int);
        assert forall|j: int| 0 <= j < k - 1 implies rest[j].block@ != block by {
            assert(rest[j] == state[j + 1]);
        }
        if k < state.len() {
            assert(rest[k - 1] == state[k]);
        }
        lemma_held_at(rest, block, k - 1);
    }
}

proof fn lemma_held_at_found(state: Seq<Output>, block: Seq<char>)
    ensures
        match held_at(state, block) {
            Some(k) => 0 <= k < state.len() && state[k].block@ == block && forall|j: int|
                0 <= j < k ==> state[j].block@ != block,
            None => forall|j: int| 0 <= j < state.len() ==> state[j].block@ != block,
        },
    decreases state.len(),
{
    if state.len() > 0 && state[0].block@ != block {
        let rest = state.subrange(1, state.len() as int);
        lemma_held_at_found(rest, block);
        match held_at(rest, block) {
            Some(k) => {
                assert(rest[k] == state[k + 1]);
                assert forall|j: int| 0 <= j < k + 1 implies state[j].block@ != block by {
                    if j > 0 {
                        assert(rest[j - 1] == state[j]);
                    }
                }
            },
            None => {
                assert forall|j: int| 0 <= j < state.len() implies state[j].block@ != block by {
                    if j > 0 {
                        assert(rest[j - 1] == state[j]);
                    }
                }
            },
        }
    }
}

/// A state holds under a name what was put in under it.
proof fn lemma_held_after_put(before: Seq<Output>, after: Seq<Output>, block: Seq<char>, value: Json)
    requires
        state_entries(after) == put(before, block, value),
    ensures
        held(after, block) is Some,
        held(after, block)->0@ == value,
{
    lemma_held_at_found(before, block);
    let entries = state_entries(before);
    match held_at(before, block) {
        Some(k) => {
            assert(state_entries(after).len() == entries.len());
            assert forall|j: int| 0 <= j < k implies after[j].block@ != block by {
                assert(state_entries(after)[j] == entries[j]);
            }
            assert(state_entries(after)[k] == Entry { key: block, value });
            lemma_held_at(after, block, k);
        },
        None => {
            assert(state_entries(after).len() == entries.len() + 1);
            assert forall|j: int| 0 <= j < before.len() implies after[j].block@ != block by {
                assert(state_entries(after)[j] == entries[j]);
            }
            assert(state_entries(after)[before.len() as int] == Entry { key: block, value });
            lemma_held_at(after, block, before.len() as int);
        },
    }
}

/// The position of the first output that a state holds under a name.
fn find_output(state: &Vec<Output>, block: &str) -> (r: Option<usize>)
    ensures
        match r {
            Some(k) => held_at(state@, block@) == Some(k as int) && k < state@.len() && held(
                state@,
                block@,
            ) == Some(state@[k as int].value),
            None => held_at(state@, block@) is None && held(state@, block@) is None,
        },
{
    let mut i: usize = 0;
    while i < state.len()
        invariant
            i <= state.len(),
            forall|k: int| 0 <= k < i ==> state@[k].block@ != block@,
        decreases state.len() - i,
    {
        if same_text(state[i].block.as_str(), block) {
            proof {
                lemma_held_at(state@, block@, i as int);
            }
            return Some(i);
        }
        i += 1;
    }
    proof {
        lemma_held_at(state@, block@, i as int);
    }
    None
}

/// The output that a state holds under a name, if it holds one.
pub fn output_of<'a>(state: &'a Vec<Output>, block: &str) -> (r: Option<&'a JsonValue>)
    ensures
        match r {
            Some(value) => held(state@, block@) == Some(*value),
            None => held(state@, block@) is None,
        },
{
    match find_output(state, block) {
        Some(k) => Some(&state[k].value),
        None => None,
    }
}

/// The state of a lane with the output of a block put in: in place of the output that the
/// state holds under that name, or behind the others.
pub fn with_output(state: &Vec<Output>, block: &str, value: JsonValue) -> (r: Vec<Output>)
    ensures
        state_entries(r@) == put(state@, block@, value@),
{
    let ghost given = value@;
    let mut r = state.clone();
    proof {
        assert forall|i: int| 0 <= i < state@.len() implies r@[i].block@ == state@[i].block@
            && r@[i].value@ == state@[i].value@ by {
            assert(cloned::<Output>(state@[i], r@[i]));
        }
        assert(state_entries(r@) =~= state_entries(state@));
    }
    let ghost copied = state_entries(r@);
    let fresh = Output { block: String::from_str(block), value };
    match find_output(state, block) {
        Some(k) => {
            r.set(k, fresh);
            assert(state_entries(r@) =~= copied.update(
                k as int,
                Entry { key: block@, value: given },
            ));
        },
        None => {
            r.push(fresh);
            assert(state_entries(r@) =~= copied.push(Entry { key: block@, value: given }));
        },
    }
    r
}

/// The record of an execution that was not made, because an execution had failed for its
/// row before.
pub fn skipped() -> (e: BlockExecution)
    ensures
        e.value is None,
        e.error is None,
        e.meta is None,
{
    BlockExecution { value: None, error: None, meta: None }
}

/// Whether a value may be the value of a block of the given kind: that of a `map` must be
/// an array, that of a `while` a boolean.
pub open spec fn fits(block_type: BlockType, value: crate::json::Json) -> bool {
    match block_type {
        BlockType::MapEach => value is Array,
        BlockType::While => value is Bool,
        _ => true,
    }
}

/// The error that is recorded for a value that does not fit the kind of its block.
pub open spec fn misfit(block_type: BlockType) -> Seq<char> {
    if block_type == BlockType::MapEach {
        "The selector of a `map` must give an array"@
    } else {
        "Invalid return value from `condition_code`, expecting boolean"@
    }
}

/// Whether an execution is what is recorded for what an execution gave: the value where it
/// fits the kind of the block, an error otherwise.
pub open spec fn records(block_type: BlockType, outcome: Outcome, e: BlockExecution) -> bool {
    &&& e.meta is None
    &&& match outcome {
        Outcome::Value { value } => if fits(block_type, value@) {
            e.error is None && e.value is Some && e.value->0@ == value@
        } else {
            e.value is None && e.error is Some && e.error->0@ == misfit(block_type)
        },
        Outcome::Failed { error } => e.value is None && e.error is Some && e.error->0@ == error@,
        Outcome::Fatal { error } => e.value is None && e.error is Some && e.error->0@ == error@,
    }
}

/// What is recorded for what an execution gave: the value where it fits the kind of the
/// block, an error otherwise.
pub fn execution_of(block_type: BlockType, outcome: &Outcome) -> (e: BlockExecution)
    ensures
        records(block_type, *outcome, e),
{
    match outcome {
        Outcome::Value { value } => {
            let fitting = match block_type {
                BlockType::MapEach => match value {
                    JsonValue::Array(_) => true,
                    _ => false,
                },
                BlockType::While => match value {
                    JsonValue::Bool(_) => true,
                    _ => false,
                },
                _ => true,
            };
            if fitting {
                BlockExecution { value: Some(value.clone()), error: None, meta: None }
            } else {
                let message = match block_type {
                    BlockType::MapEach => String::from_str("The selector of a `map` must give an array"),
                    _ => String::from_str(
                        "Invalid return value from `condition_code`, expecting boolean",
                    ),
                };
                BlockExecution { value: None, error: Some(message), meta: None }
            }
        },
        Outcome::Failed { error } => BlockExecution {
            value: None,
            error: Some(error.clone()),
            meta: None,
        },
        Outcome::Fatal { error } => BlockExecution {
            value: None,
            error: Some(error.clone()),
            meta: None,
        },
    }
}

/// Whether a lane and an execution are what a visit of the block named `block` leaves
/// of a lane that did not wait: the lane holds the value of the execution as the output of
/// the block, or is one for which an execution has failed.
pub open spec fn paired(lane: Lane, execution: BlockExecution, block: Seq<char>) -> bool {
    match execution.value {
        Some(value) => !lane.failed && held(lane.env.state@, block) is Some && held(
            lane.env.state@,
            block,
        )->0@ == value@,
        None => lane.failed,
    }
}

/// The lane after an execution: with the value as the output of the block where there is
/// one, failed otherwise.
fn lane_after(lane: &Lane, block: &str, execution: &BlockExecution) -> (r: Lane)
    ensures
        r.parked == lane.parked,
        r.failed == (lane.failed || execution.value is None),
        !lane.failed ==> paired(r, *execution, block@),
        same_origin(r.env, lane.env),
{
    match &execution.value {
        Some(value) => {
            let state = with_output(&lane.env.state, block, value.clone());
            proof {
                lemma_held_after_put(lane.env.state@, state@, block@, value@);
            }
            let map = match &lane.env.map {
                Some(scope) => Some(scope.clone()),
                None => None,
            };
            Lane { env: lane.env.with_scope(state, map), failed: lane.failed, parked: lane.parked }
        },
        None => Lane { env: lane.env.clone(), failed: true, parked: lane.parked },
    }
}

/// The numbers of lanes of each input.
pub open spec fn widths(lanes: Seq<Vec<Lane>>) -> Seq<nat> {
    Seq::new(lanes.len(), |n: int| lanes[n]@.len())
}

/// Whether no lane waits for the `end` of a `while` block.
pub open spec fn all_awake(lanes: Seq<Vec<Lane>>) -> bool {
    forall|n: int, m: int|
        0 <= n < lanes.len() && 0 <= m < lanes[n]@.len() ==> (#[trigger] lanes[n]@[m]).parked
            is None
}

/// The number of the lanes of an input that do not wait for the `end` of a `while`: those
/// that a block is visited for.
pub open spec fn awake(row: Seq<Lane>) -> nat
    decreases row.len(),
{
    if row.len() == 0 {
        0
    } else {
        awake(row.drop_last()) + if row.last().parked is None {
            1nat
        } else {
            0nat
        }
    }
}

/// Lanes that wait alike are awake alike.
proof fn lemma_awake_alike(a: Seq<Lane>, b: Seq<Lane>)
    requires
        a.len() == b.len(),
        forall|m: int| 0 <= m < a.len() ==> (#[trigger] a[m]).parked is None == b[m].parked is None,
    ensures
        awake(a) == awake(b),
    decreases a.len(),
{
    if a.len() > 0 {
        assert forall|m: int| 0 <= m < a.drop_last().len() implies (#[trigger] a.drop_last()[m]).parked
            is None == b.drop_last()[m].parked is None by {
            assert(a.drop_last()[m] == a[m]);
            assert(b.drop_last()[m] == b[m]);
        }
        lemma_awake_alike(a.drop_last(), b.drop_last());
        assert(a.last() == a[a.len() - 1]);
        assert(b.last() == b[b.len() - 1]);
    }
}

/// Where only lanes that were awake are awake, no more are awake than were.
proof fn lemma_awake_fewer(after: Seq<Lane>, before: Seq<Lane>)
    requires
        after.len() == before.len(),
        forall|m: int|
            0 <= m < after.len() && (#[trigger] after[m]).parked is None ==> before[m].parked
                is None,
    ensures
        awake(after) <= awake(before),
    decreases after.len(),
{
    if after.len() > 0 {
        assert forall|m: int|
            0 <= m < after.drop_last().len() && (#[trigger] after.drop_last()[m]).parked
                is None implies before.drop_last()[m].parked is None by {
            assert(after.drop_last()[m] == after[m]);
            assert(before.drop_last()[m] == before[m]);
        }
        lemma_awake_fewer(after.drop_last(), before.drop_last());
        assert(after.last() == after[after.len() - 1]);
        assert(before.last() == before[before.len() - 1]);
    }
}

/// Never more lanes are awake than there are.
proof fn lemma_awake_bounded(row: Seq<Lane>)
    ensures
        awake(row) <= row.len(),
    decreases row.len(),
{
    if row.len() > 0 {
        lemma_awake_bounded(row.drop_last());
    }
}

/// The numbers of executions that a list of rows holds, input by input.
pub open spec fn heights(rows: Seq<Vec<BlockExecution>>) -> Seq<nat> {
    Seq::new(rows.len(), |n: int| rows[n]@.len())
}

/// Whether each input has one lane, which does not wait and for which no execution has
/// failed: so it is before the first block.
pub open spec fn fresh(lanes: Seq<Vec<Lane>>) -> bool {
    forall|n: int|
        0 <= n < lanes.len() ==> (#[trigger] lanes[n])@.len() == 1 && !lanes[n]@[0].failed
            && lanes[n]@[0].parked is None
}

/// Whether each input has one lane, which does not wait.
pub open spec fn single(lanes: Seq<Vec<Lane>>) -> bool {
    forall|n: int|
        0 <= n < lanes.len() ==> (#[trigger] lanes[n])@.len() == 1 && lanes[n]@[0].parked is None
}

/// Whether an execution may be that of a block of the given kind: where a `map` has a value,
/// it is an array.
pub open spec fn fitting(block_type: BlockType, execution: BlockExecution) -> bool {
    block_type == BlockType::MapEach && execution.value is Some ==> execution.value->0@ is Array
}

/// Whether a block is executed for a lane: it is where the lane does not wait for an `end`
/// and no execution has failed for it.
pub open spec fn is_ready(lane: Lane) -> bool {
    lane.parked is None && !lane.failed
}

/// The lanes of one input that a block is executed for, in order.
pub open spec fn ready_row(row: Seq<Lane>) -> Seq<Lane>
    decreases row.len(),
{
    if row.len() == 0 {
        Seq::empty()
    } else if is_ready(row.last()) {
        ready_row(row.drop_last()).push(row.last())
    } else {
        ready_row(row.drop_last())
    }
}

/// The lanes that a block is executed for, input by input and in order.
pub open spec fn ready_lanes(lanes: Seq<Vec<Lane>>) -> Seq<Lane>
    decreases lanes.len(),
{
    if lanes.len() == 0 {
        Seq::empty()
    } else {
        ready_lanes(lanes.drop_last()) + ready_row(lanes.last()@)
    }
}

/// Whether two environments look the same to a block: to its code, in the options of the
/// run, in the input and its index, in the scope, and in the secrets.
pub open spec fn alike(a: Env, b: Env) -> bool {
    &&& code_view(a.config.blocks@, a.state@, a.input, a.map) == code_view(
        b.config.blocks@,
        b.state@,
        b.input,
        b.map,
    )
    &&& a.config.deep_view() == b.config.deep_view()
    &&& a.input.index == b.input.index
    &&& or_null(a.input.value) == or_null(b.input.value)
    &&& a.map is Some == b.map is Some
    &&& (a.map is Some ==> a.map->0.iteration == b.map->0.iteration)
    &&& forall|name: Seq<char>| secret_of(a.credentials@, name) == secret_of(b.credentials@, name)
}

/// The error of the first outcome that ends the run, if there is one.
pub open spec fn first_fatal(outcomes: Seq<Outcome>) -> Option<Seq<char>>
    decreases outcomes.len(),
{
    if outcomes.len() == 0 {
        None
    } else {
        match first_fatal(outcomes.drop_last()) {
            Some(error) => Some(error),
            None => match outcomes.last() {
                Outcome::Fatal { error } => Some(error@),
                _ => None,
            },
        }
    }
}

/// Why the run ends after a block was executed for `asked` lanes and gave these outcomes, if
/// it does: with the error of the first outcome that ends it, among those that a lane
/// takes; else because the outcomes are too few, or too many.
pub open spec fn ending(outcomes: Seq<Outcome>, asked: nat) -> Option<Seq<char>> {
    let taken = if outcomes.len() <= asked {
        outcomes
    } else {
        outcomes.take(asked as int)
    };
    match first_fatal(taken) {
        Some(error) => Some(error),
        None => if outcomes.len() < asked {
            Some("Executions are missing"@)
        } else if outcomes.len() > asked {
            Some("There are more executions than were asked for"@)
        } else {
            None
        },
    }
}

/// The text that a message holds, if there is one.
pub open spec fn text_of(message: Option<String>) -> Option<Seq<char>> {
    match message {
        Some(message) => Some(message@),
        None => None,
    }
}

/// The environments of the lanes that a block is to be executed for: those that do not wait
/// for an `end` and for which no execution has failed, input by input.
fn ready(lanes: &Vec<Vec<Lane>>) -> (envs: Vec<Env>)
    ensures
        envs@.len() == ready_lanes(lanes@).len(),
        forall|j: int|
            0 <= j < envs@.len() ==> alike(#[trigger] envs@[j], ready_lanes(lanes@)[j].env),
{
    let mut envs: Vec<Env> = Vec::new();
    let mut n: usize = 0;
    assert(lanes@.take(0) =~= Seq::empty());
    while n < lanes.len()
        invariant
            n <= lanes.len(),
            envs@.len() == ready_lanes(lanes@.take(n as int)).len(),
            forall|j: int|
                0 <= j < envs@.len() ==> alike(
                    #[trigger] envs@[j],
                    ready_lanes(lanes@.take(n as int))[j].env,
                ),
        decreases lanes.len() - n,
    {
        let ghost before = ready_lanes(lanes@.take(n as int));
        let mut m: usize = 0;
        assert(lanes@[n as int]@.take(0) =~= Seq::empty());
        while m < lanes[n].len()
            invariant
                n < lanes.len(),
                m <= lanes@[n as int]@.len(),
                envs@.len() == before.len() + ready_row(lanes@[n as int]@.take(m as int)).len(),
                forall|j: int|
                    0 <= j < envs@.len() ==> alike(
                        #[trigger] envs@[j],
                        (before + ready_row(lanes@[n as int]@.take(m as int)))[j].env,
                    ),
            decreases lanes@[n as int]@.len() - m,
        {
            proof {
                let so_far = lanes@[n as int]@.take(m + 1);
                assert(so_far.drop_last() == lanes@[n as int]@.take(m as int));
                assert(so_far.last() == lanes@[n as int]@[m as int]);
            }
            if lanes[n][m].parked.is_none() && !lanes[n][m].failed {
                envs.push(lanes[n][m].env.clone());
            }
            m += 1;
        }
        proof {
            assert(lanes@[n as int]@.take(m as int) == lanes@[n as int]@);
            assert(lanes@.take(n + 1).drop_last() == lanes@.take(n as int));
            assert(lanes@.take(n + 1).last() == lanes@[n as int]);
        }
        n += 1;
    }
    assert(lanes@.take(n as int) == lanes@);
    envs
}

/// Where each input has one lane that is ready, the lanes that a block is executed for are
/// these, input by input.
proof fn lemma_ready_fresh(lanes: Seq<Vec<Lane>>)
    requires
        fresh(lanes),
    ensures
        ready_lanes(lanes).len() == lanes.len(),
        forall|n: int| 0 <= n < lanes.len() ==> #[trigger] ready_lanes(lanes)[n] == lanes[n]@[0],
    decreases lanes.len(),
{
    if lanes.len() > 0 {
        let rest = lanes.drop_last();
        assert forall|n: int| 0 <= n < rest.len() implies (#[trigger] rest[n])@.len() == 1
            && !rest[n]@[0].failed && rest[n]@[0].parked is None by {
            assert(rest[n] == lanes[n]);
        }
        lemma_ready_fresh(rest);
        let row = lanes.last()@;
        assert(lanes.last() == lanes[lanes.len() - 1]);
        assert(row.drop_last() =~= Seq::empty());
        assert(ready_row(row.drop_last()) =~= Seq::empty());
        assert(ready_row(row) =~= seq![row[0]]);
        assert forall|n: int| 0 <= n < lanes.len() implies #[trigger] ready_lanes(lanes)[n]
            == lanes[n]@[0] by {
            if n < rest.len() {
                assert(ready_lanes(rest)[n] == rest[n]@[0]);
                assert(rest[n] == lanes[n]);
            }
        }
    }
}

/// What a visit of a block leaves: the lanes after it, what was recorded for each lane that
/// did not wait, input by input, and whether the run is to end.
struct Visit {
    pub lanes: Vec<Vec<Lane>>,
    pub rows: Vec<Vec<BlockExecution>>,
    pub fatal: Option<String>,
}

/// Whether an execution, as it is stored, is what is recorded for what an execution gave.
pub open spec fn stored(block_type: BlockType, outcome: Outcome, e: Execution) -> bool {
    &&& e.meta is None
    &&& match outcome {
        Outcome::Value { value } => if fits(block_type, value@) {
            e.error is None && e.value == Some(value@)
        } else {
            e.value is None && e.error == Some(misfit(block_type))
        },
        Outcome::Failed { error } => e.value is None && e.error == Some(error@),
        Outcome::Fatal { error } => e.value is None && e.error == Some(error@),
    }
}

/// Whether an execution is the record of one that was not made.
pub open spec fn blank(e: Execution) -> bool {
    e.value is None && e.error is None && e.meta is None
}

/// What the engine itself gives, in place of an execution, for a block of a kind that it
/// does not hand to the executor: for `root` the input, for a `while` whose passes are used
/// up `false`, for any other `null`.
pub open spec fn supplied(block_type: BlockType, env: Env) -> Json {
    match block_type {
        BlockType::Root => or_null(env.input.value),
        BlockType::While => Json::Bool(false),
        _ => Json::Null,
    }
}

/// Whether an execution is one that the engine records by itself for a block of the given
/// kind: a value without an error, or the record of an execution that was not made. The
/// value of a `while` is `false`, that of a `reduce` an array, that of an `end` `null`.
pub open spec fn own(block_type: BlockType, e: Execution) -> bool {
    &&& e.meta is None
    &&& e.error is None
    &&& match block_type {
        BlockType::Root => true,
        BlockType::While => e.value is None || e.value == Some(Json::Bool(false)),
        BlockType::Reduce => e.value is None || e.value->0 is Array,
        BlockType::End => e.value is None || e.value == Some(Json::Null),
        _ => e.value is None,
    }
}

/// The number of the executions of a row that have a value.
pub open spec fn successes_in(row: Seq<Execution>) -> nat
    decreases row.len(),
{
    if row.len() == 0 {
        0
    } else if row.last().value is Some {
        successes_in(row.drop_last()) + 1
    } else {
        successes_in(row.drop_last())
    }
}

/// The number of the executions of a row that have an error and no value.
pub open spec fn errors_in(row: Seq<Execution>) -> nat
    decreases row.len(),
{
    if row.len() == 0 {
        0
    } else if row.last().value is None && row.last().error is Some {
        errors_in(row.drop_last()) + 1
    } else {
        errors_in(row.drop_last())
    }
}

/// The number of the executions of all rows that have a value.
pub open spec fn successes(rows: Seq<Vec<BlockExecution>>) -> nat
    decreases rows.len(),
{
    if rows.len() == 0 {
        0
    } else {
        successes(rows.drop_last()) + successes_in(rows.last().deep_view())
    }
}

/// The number of the executions of all rows that have an error and no value.
pub open spec fn errors(rows: Seq<Vec<BlockExecution>>) -> nat
    decreases rows.len(),
{
    if rows.len() == 0 {
        0
    } else {
        errors(rows.drop_last()) + errors_in(rows.last().deep_view())
    }
}

/// A count as a status holds it: the number itself, or the greatest that the machine word
/// holds where it is greater.
pub open spec fn saturated(count: int) -> usize {
    if count > usize::MAX {
        usize::MAX
    } else {
        count as usize
    }
}

proof fn lemma_counts_in_joined(a: Seq<Execution>, b: Seq<Execution>)
    ensures
        successes_in(a + b) == successes_in(a) + successes_in(b),
        errors_in(a + b) == errors_in(a) + errors_in(b),
    decreases b.len(),
{
    if b.len() == 0 {
        assert(a + b =~= a);
    } else {
        assert((a + b).drop_last() =~= a + b.drop_last());
        assert((a + b).last() == b.last());
        lemma_counts_in_joined(a, b.drop_last());
    }
}

/// Where each row has grown by the row that is added to it, the counts have grown by the
/// counts of what is added.
proof fn lemma_counts_joined(
    after: Seq<Vec<BlockExecution>>,
    before: Seq<Vec<BlockExecution>>,
    added: Seq<Vec<BlockExecution>>,
)
    requires
        after.len() == before.len(),
        added.len() == before.len(),
        forall|n: int|
            0 <= n < before.len() ==> (#[trigger] after[n]).deep_view() == before[n].deep_view()
                + added[n].deep_view(),
    ensures
        successes(after) == successes(before) + successes(added),
        errors(after) == errors(before) + errors(added),
    decreases before.len(),
{
    if before.len() > 0 {
        let last = before.len() - 1;
        assert forall|n: int| 0 <= n < before.drop_last().len() implies (
        #[trigger] after.drop_last()[n]).deep_view() == before.drop_last()[n].deep_view()
            + added.drop_last()[n].deep_view() by {
            assert(after.drop_last()[n] == after[n]);
        }
        lemma_counts_joined(after.drop_last(), before.drop_last(), added.drop_last());
        assert(after.last() == after[last]);
        assert(before.last() == before[last]);
        assert(added.last() == added[last]);
        lemma_counts_in_joined(before[last].deep_view(), added[last].deep_view());
    }
}

/// Outcomes that are all values hold none that ends the run.
proof fn lemma_values_go_on(outcomes: Seq<Outcome>)
    requires
        forall|k: int| 0 <= k < outcomes.len() ==> (#[trigger] outcomes[k]) is Value,
    ensures
        first_fatal(outcomes) is None,
    decreases outcomes.len(),
{
    if outcomes.len() > 0 {
        assert forall|k: int| 0 <= k < outcomes.drop_last().len() implies (
        #[trigger] outcomes.drop_last()[k]) is Value by {
            assert(outcomes.drop_last()[k] == outcomes[k]);
        }
        lemma_values_go_on(outcomes.drop_last());
        assert(outcomes.last() == outcomes[outcomes.len() - 1]);
    }
}

/// Whether an execution is the record of one that was not made, or what is recorded for
/// the outcome that a lane of `row` has taken: the lane is one of those that the block is
/// executed for, and the outcome stands where the lane stands among them.
pub open spec fn taken(
    block_type: BlockType,
    e: Execution,
    outcomes: Seq<Outcome>,
    ready: Seq<Lane>,
    row: Seq<Lane>,
) -> bool {
    blank(e) || exists|j: int, m: int|
        #![trigger outcomes[j], row[m]]
        0 <= j < outcomes.len() && j < ready.len() && 0 <= m < row.len() && ready[j] == row[m]
            && stored(block_type, outcomes[j], e)
}

/// What is taken from some lanes is taken from these and more behind them.
proof fn lemma_taken_more(
    block_type: BlockType,
    e: Execution,
    outcomes: Seq<Outcome>,
    ready: Seq<Lane>,
    more: Seq<Lane>,
    row: Seq<Lane>,
)
    requires
        taken(block_type, e, outcomes, ready, row),
    ensures
        taken(block_type, e, outcomes, ready + more, row),
{
    if !blank(e) {
        let (j, m) = choose|j: int, m: int|
            #![trigger outcomes[j], row[m]]
            0 <= j < outcomes.len() && j < ready.len() && 0 <= m < row.len() && ready[j] == row[m]
                && stored(block_type, outcomes[j], e);
        assert((ready + more)[j] == ready[j]);
        assert(0 <= j < outcomes.len() && j < (ready + more).len() && 0 <= m < row.len() && (ready
            + more)[j] == row[m] && stored(block_type, outcomes[j], e));
    }
}

/// Whether a lane is of the same row of the same run as one of the lanes of `row`.
pub open spec fn from_row(lane: Lane, row: Seq<Lane>) -> bool {
    exists|m: int| 0 <= m < row.len() && same_origin(lane.env, (#[trigger] row[m]).env)
}

/// What a run is made over: the inputs, the options and the credentials.
pub struct Origin {
    pub inputs: Seq<Json>,
    pub config: Seq<Options>,
    pub credentials: Seq<Credential>,
}

/// Whether an environment is that of the input numbered `input` in a run: it holds that
/// input under that index, and the options and the secrets of the run.
pub open spec fn of_input(env: Env, input: int, origin: Origin) -> bool {
    &&& 0 <= input < origin.inputs.len()
    &&& env.input.index == input
    &&& or_null(env.input.value) == origin.inputs[input]
    &&& env.config.deep_view() == origin.config
    &&& forall|name: Seq<char>|
        #[trigger] secret_of(env.credentials@, name) == secret_of(origin.credentials, name)
}

/// Whether the lanes of each input have environments of that input.
pub open spec fn rooted(lanes: Seq<Vec<Lane>>, origin: Origin) -> bool {
    forall|n: int, m: int|
        0 <= n < lanes.len() && 0 <= m < lanes[n]@.len() ==> of_input(
            (#[trigger] lanes[n]@[m]).env,
            n,
            origin,
        )
}

/// Lanes that are, one by one, of the same rows of the same run as lanes whose environments
/// are of their inputs have environments of their inputs too.
proof fn lemma_rooted_kept(after: Seq<Vec<Lane>>, before: Seq<Vec<Lane>>, origin: Origin)
    requires
        rooted(before, origin),
        after.len() == before.len(),
        widths(after) == widths(before),
        forall|n: int, m: int|
            0 <= n < before.len() && 0 <= m < before[n]@.len() ==> same_origin(
                (#[trigger] after[n]@[m]).env,
                before[n]@[m].env,
            ),
    ensures
        rooted(after, origin),
{
    assert forall|n: int, m: int| 0 <= n < after.len() && 0 <= m < after[n]@.len() implies of_input(
        (#[trigger] after[n]@[m]).env,
        n,
        origin,
    ) by {
        assert(widths(after)[n] == after[n]@.len());
        assert(widths(before)[n] == before[n]@.len());
        assert(of_input(before[n]@[m].env, n, origin));
        assert(same_origin(after[n]@[m].env, before[n]@[m].env));
    }
}

/// Lanes that are each of the same row as one of the lanes before have environments of their
/// inputs where those have.
proof fn lemma_rooted_from(after: Seq<Vec<Lane>>, before: Seq<Vec<Lane>>, origin: Origin)
    requires
        rooted(before, origin),
        after.len() == before.len(),
        forall|n: int, k: int|
            0 <= n < after.len() && 0 <= k < after[n]@.len() ==> from_row(
                #[trigger] after[n]@[k],
                before[n]@,
            ),
    ensures
        rooted(after, origin),
{
    assert forall|n: int, k: int| 0 <= n < after.len() && 0 <= k < after[n]@.len() implies of_input(
        (#[trigger] after[n]@[k]).env,
        n,
        origin,
    ) by {
        assert(from_row(after[n]@[k], before[n]@));
        let m = choose|m: int|
            0 <= m < before[n]@.len() && same_origin(
                after[n]@[k].env,
                (#[trigger] before[n]@[m]).env,
            );
        assert(of_input(before[n]@[m].env, n, origin));
    }
}

/// Whether an execution has failed: it has an error and no value.
pub open spec fn errored(e: Execution) -> bool {
    e.value is None && e.error is Some
}

/// Why the run is to end once `count` lanes have asked for an outcome, if it is: with the
/// error of the first outcome taken that ends it, or else because the outcomes are too few.
pub open spec fn ending_so_far(outcomes: Seq<Outcome>, count: nat) -> Option<Seq<char>> {
    let taken = if outcomes.len() <= count {
        outcomes
    } else {
        outcomes.take(count as int)
    };
    match first_fatal(taken) {
        Some(error) => Some(error),
        None => if outcomes.len() < count {
            Some("Executions are missing"@)
        } else {
            None
        },
    }
}

/// Whether a lane and an execution, as it is stored, are what a visit of the block named
/// `block` leaves of a lane that did not wait: the lane holds the value of the execution as
/// the output of the block, or is one for which an execution has failed.
pub open spec fn paired_view(lane: Lane, e: Execution, block: Seq<char>) -> bool {
    match e.value {
        Some(value) => !lane.failed && held(lane.env.state@, block) is Some && held(
            lane.env.state@,
            block,
        )->0@ == value,
        None => lane.failed,
    }
}

/// Whether the one lane of an input and the row of the trace of a block are what a visit of
/// the block leaves of them: nothing has changed for a lane that waits; for any other, the
/// row has one execution more, which the lane is paired with, and which is the engine's own
/// where the engine gives the values itself.
pub open spec fn visited_row(
    lane: Lane,
    after: Lane,
    row: Seq<Execution>,
    grown: Seq<Execution>,
    block: Seq<char>,
    local: bool,
    block_type: BlockType,
) -> bool {
    if lane.parked is Some {
        grown == row
    } else {
        &&& grown.len() == row.len() + 1
        &&& grown.drop_last() == row
        &&& paired_view(after, grown.last(), block)
        &&& local ==> own(block_type, grown.last())
    }
}

/// Whether a row of the trace of a `while` that held `had` executions before the loop shows
/// a loop that has gone on as long as the condition gave `true`: the block was executed,
/// each execution but the last gave `true`, and the last did not.
pub open spec fn spun(row: Seq<Execution>, had: int) -> bool {
    &&& 0 <= had < row.len()
    &&& row.last().value != Some(Json::Bool(true))
    &&& forall|k: int| had <= k < row.len() - 1 ==> (#[trigger] row[k]).value == Some(Json::Bool(true))
}

/// Whether a row of the trace of a `while` is that of a loop on its way: where the lane waits
/// for the `end`, the loop is over for it; where it does not, each execution gave `true`.
pub open spec fn spinning(waits: bool, row: Seq<Execution>, had: int) -> bool {
    if waits {
        spun(row, had)
    } else {
        &&& 0 <= had <= row.len()
        &&& forall|k: int| had <= k < row.len() ==> (#[trigger] row[k]).value == Some(Json::Bool(true))
    }
}

/// A value that looks like `true` is `true`.
proof fn lemma_true(value: JsonValue)
    requires
        value@ == Json::Bool(true),
    ensures
        value == JsonValue::Bool(true),
{
    match value {
        JsonValue::Bool(b) => {},
        _ => {},
    }
}

/// A lane that is paired with an execution goes on with the next pass of the `while` named
/// `name` where the execution gave `true`, and there only.
proof fn lemma_goes_on(lane: Lane, e: Execution, name: Seq<char>)
    requires
        lane.parked is None,
        paired_view(lane, e, name),
    ensures
        proceeds(lane, name) == (e.value == Some(Json::Bool(true))),
{
    if e.value == Some(Json::Bool(true)) {
        lemma_true(held(lane.env.state@, name)->0);
    }
}

/// Whether an execution has failed for one of the lanes.
pub open spec fn some_failed(row: Seq<Lane>) -> bool {
    exists|m: int| 0 <= m < row.len() && (#[trigger] row[m]).failed
}

/// Whether one of the executions has failed.
pub open spec fn some_errored(row: Seq<BlockExecution>) -> bool {
    exists|k: int| 0 <= k < row.len() && errored((#[trigger] row[k]).deep_view())
}

/// Hands what the executions of a block gave to the lanes, in order. A lane that waits for
/// an `end` is passed over; for one for which an execution had failed before, a skipped
/// execution is recorded; each of the others takes the next outcome. Where the outcomes are
/// too few, or one of them ends the run, the run is to end.
#[verifier::rlimit(60)]
fn settle(block_type: BlockType, name: &str, lanes: &Vec<Vec<Lane>>, outcomes: &Vec<Outcome>) -> (v:
    Visit)
    ensures
        v.lanes@.len() == lanes@.len(),
        v.rows@.len() == lanes@.len(),
        widths(v.lanes@) == widths(lanes@),
        forall|n: int, m: int|
            0 <= n < lanes@.len() && 0 <= m < lanes@[n]@.len() ==> (#[trigger] v.lanes@[n]@[m]).parked
                == lanes@[n]@[m].parked,
        all_awake(lanes@) ==> heights(v.rows@) == widths(lanes@),
        forall|n: int| 0 <= n < lanes@.len() ==> (#[trigger] v.rows@[n])@.len() <= lanes@[n]@.len(),
        forall|n: int| 0 <= n < lanes@.len() ==> (#[trigger] v.rows@[n])@.len() == awake(lanes@[n]@),
        single(lanes@) ==> forall|n: int|
            0 <= n < lanes@.len() ==> (#[trigger] v.rows@[n])@.len() == 1 && paired(
                v.lanes@[n]@[0],
                v.rows@[n]@[0],
                name@,
            ) && fitting(block_type, v.rows@[n]@[0]),
        fresh(lanes@) && outcomes@.len() == lanes@.len() ==> forall|n: int|
            0 <= n < lanes@.len() ==> (#[trigger] v.rows@[n])@.len() == 1 && records(
                block_type,
                outcomes@[n],
                v.rows@[n]@[0],
            ),
        text_of(v.fatal) == ending(outcomes@, ready_lanes(lanes@).len()),
        forall|n: int, k: int|
            0 <= n < lanes@.len() && 0 <= k < v.rows@[n]@.len() ==> taken(
                block_type,
                (#[trigger] v.rows@[n]@[k]).deep_view(),
                outcomes@,
                ready_lanes(lanes@),
                lanes@[n]@,
            ),
        forall|n: int, m: int|
            0 <= n < lanes@.len() && 0 <= m < lanes@[n]@.len() ==> same_origin(
                (#[trigger] v.lanes@[n]@[m]).env,
                lanes@[n]@[m].env,
            ),
        v.fatal is None ==> forall|n: int, k: int|
            0 <= n < lanes@.len() && 0 <= k < v.rows@[n]@.len() && blank(
                (#[trigger] v.rows@[n]@[k]).deep_view(),
            ) ==> some_failed(lanes@[n]@),
        forall|n: int|
            0 <= n < lanes@.len() && lanes@[n]@.len() == 1 && lanes@[n]@[0].parked is None ==> (
            #[trigger] v.rows@[n])@.len() == 1 && paired(v.lanes@[n]@[0], v.rows@[n]@[0], name@),
        v.fatal is None ==> forall|n: int, m: int|
            0 <= n < lanes@.len() && 0 <= m < lanes@[n]@.len() && (#[trigger] v.lanes@[n]@[m]).failed
                ==> some_failed(lanes@[n]@) || some_errored(v.rows@[n]@),
{
    let mut out: Vec<Vec<Lane>> = Vec::new();
    let mut rows: Vec<Vec<BlockExecution>> = Vec::new();
    let mut fatal: Option<String> = None;
    let mut next: usize = 0;
    let mut n: usize = 0;
    proof {
        assert(lanes@.take(0) =~= Seq::empty());
        assert(outcomes@.take(0) =~= Seq::empty());
        if outcomes@.len() == 0 {
            assert(outcomes@ =~= Seq::empty());
        }
        reveal_strlit("Executions are missing");
    }
    while n < lanes.len()
        invariant
            n <= lanes.len(),
            out@.len() == n,
            rows@.len() == n,
            next <= outcomes@.len(),
            forall|i: int, k: int|
                0 <= i < n && 0 <= k < rows@[i]@.len() ==> taken(
                    block_type,
                    (#[trigger] rows@[i]@[k]).deep_view(),
                    outcomes@,
                    ready_lanes(lanes@.take(n as int)),
                    lanes@[i]@,
                ),
            forall|i: int, m: int|
                0 <= i < n && 0 <= m < lanes@[i]@.len() ==> same_origin(
                    (#[trigger] out@[i]@[m]).env,
                    lanes@[i]@[m].env,
                ),
            fatal is None ==> forall|i: int, k: int|
                0 <= i < n && 0 <= k < rows@[i]@.len() && blank(
                    (#[trigger] rows@[i]@[k]).deep_view(),
                ) ==> some_failed(lanes@[i]@),
            fatal is None ==> forall|i: int, m: int|
                0 <= i < n && 0 <= m < lanes@[i]@.len() && (#[trigger] out@[i]@[m]).failed
                    ==> some_failed(lanes@[i]@) || some_errored(rows@[i]@),
            forall|i: int|
                0 <= i < n && lanes@[i]@.len() == 1 && lanes@[i]@[0].parked is None ==> (
                #[trigger] rows@[i])@.len() == 1 && paired(out@[i]@[0], rows@[i]@[0], name@),
            next == outcomes@.len() || next == ready_lanes(lanes@.take(n as int)).len(),
            next <= ready_lanes(lanes@.take(n as int)).len(),
            text_of(fatal) == ending_so_far(outcomes@, ready_lanes(lanes@.take(n as int)).len()),
            forall|k: int| 0 <= k < n ==> (#[trigger] rows@[k])@.len() <= lanes@[k]@.len(),
            forall|k: int| 0 <= k < n ==> (#[trigger] rows@[k])@.len() == awake(lanes@[k]@),
            single(lanes@) ==> forall|k: int|
                0 <= k < n ==> (#[trigger] rows@[k])@.len() == 1 && paired(
                    out@[k]@[0],
                    rows@[k]@[0],
                    name@,
                ) && fitting(block_type, rows@[k]@[0]),
            fresh(lanes@) && outcomes@.len() == lanes@.len() ==> next == n && forall|k: int|
                0 <= k < n ==> (#[trigger] rows@[k])@.len() == 1 && records(
                    block_type,
                    outcomes@[k],
                    rows@[k]@[0],
                ),
            forall|k: int| 0 <= k < n ==> (#[trigger] out@[k])@.len() == lanes@[k]@.len(),
            forall|k: int, m: int|
                0 <= k < n && 0 <= m < lanes@[k]@.len() ==> (#[trigger] out@[k]@[m]).parked
                    == lanes@[k]@[m].parked,
            all_awake(lanes@) ==> forall|k: int|
                0 <= k < n ==> (#[trigger] rows@[k])@.len() == lanes@[k]@.len(),
        decreases lanes.len() - n,
    {
        let mut row: Vec<Lane> = Vec::new();
        let mut recorded: Vec<BlockExecution> = Vec::new();
        let mut m: usize = 0;
        let ghost before = ready_lanes(lanes@.take(n as int)).len();
        assert(lanes@[n as int]@.take(0).len() == 0);
        assert(lanes@[n as int]@.take(0) =~= Seq::empty());
        while m < lanes[n].len()
            invariant
                n < lanes.len(),
                m <= lanes@[n as int]@.len(),
                row@.len() == m,
                next <= outcomes@.len(),
                forall|k: int|
                    0 <= k < recorded@.len() ==> taken(
                        block_type,
                        (#[trigger] recorded@[k]).deep_view(),
                        outcomes@,
                        ready_lanes(lanes@.take(n as int)) + ready_row(
                            lanes@[n as int]@.take(m as int),
                        ),
                        lanes@[n as int]@,
                    ),
                forall|k: int|
                    0 <= k < m ==> same_origin((#[trigger] row@[k]).env, lanes@[n as int]@[k].env),
                before == ready_lanes(lanes@.take(n as int)).len(),
                out@.len() == n,
                lanes@[n as int]@[0].parked is None ==> (m == 0 ==> recorded@.len() == 0) && (m == 1
                    ==> recorded@.len() == 1 && paired(row@[0], recorded@[0], name@)),
                forall|i: int|
                    0 <= i < n && lanes@[i]@.len() == 1 && lanes@[i]@[0].parked is None ==> (
                    #[trigger] rows@[i])@.len() == 1 && paired(out@[i]@[0], rows@[i]@[0], name@),
                fatal is None ==> forall|k: int|
                    0 <= k < recorded@.len() && blank((#[trigger] recorded@[k]).deep_view())
                        ==> some_failed(lanes@[n as int]@),
                fatal is None ==> forall|k: int|
                    0 <= k < m && (#[trigger] row@[k]).failed ==> some_failed(lanes@[n as int]@)
                        || some_errored(recorded@),
                fatal is None ==> forall|i: int, k: int|
                    0 <= i < n && 0 <= k < rows@[i]@.len() && blank(
                        (#[trigger] rows@[i]@[k]).deep_view(),
                    ) ==> some_failed(lanes@[i]@),
                fatal is None ==> forall|i: int, k: int|
                    0 <= i < n && 0 <= k < lanes@[i]@.len() && (#[trigger] out@[i]@[k]).failed
                        ==> some_failed(lanes@[i]@) || some_errored(rows@[i]@),
                forall|i: int, k: int|
                    0 <= i < n && 0 <= k < rows@[i]@.len() ==> taken(
                        block_type,
                        (#[trigger] rows@[i]@[k]).deep_view(),
                        outcomes@,
                        ready_lanes(lanes@.take(n as int)),
                        lanes@[i]@,
                    ),
                rows@.len() == n,
                next == outcomes@.len() || next == before + ready_row(
                    lanes@[n as int]@.take(m as int),
                ).len(),
                next <= before + ready_row(lanes@[n as int]@.take(m as int)).len(),
                text_of(fatal) == ending_so_far(
                    outcomes@,
                    before + ready_row(lanes@[n as int]@.take(m as int)).len(),
                ),
                forall|k: int| 0 <= k < m ==> (#[trigger] row@[k]).parked == lanes@[n as int]@[k].parked,
                all_awake(lanes@) ==> recorded@.len() == m,
                recorded@.len() <= m,
                recorded@.len() == awake(lanes@[n as int]@.take(m as int)),
                single(lanes@) ==> recorded@.len() == m && (m == 1 ==> paired(
                    row@[0],
                    recorded@[0],
                    name@,
                ) && fitting(block_type, recorded@[0])),
                fresh(lanes@) && outcomes@.len() == lanes@.len() ==> next == n + m
                    && recorded@.len() == m && (m == 1 ==> records(
                    block_type,
                    outcomes@[n as int],
                    recorded@[0],
                )),
            decreases lanes@[n as int]@.len() - m,
        {
            let lane = &lanes[n][m];
            let ghost had = ready_lanes(lanes@.take(n as int)) + ready_row(
                lanes@[n as int]@.take(m as int),
            );
            let ghost now = ready_lanes(lanes@.take(n as int)) + ready_row(
                lanes@[n as int]@.take(m + 1),
            );
            proof {
                let so_far = lanes@[n as int]@.take(m + 1);
                assert(so_far.drop_last() == lanes@[n as int]@.take(m as int));
                assert(so_far.last() == *lane);
                if is_ready(*lane) {
                    assert(now =~= had + seq![*lane]);
                    assert(now[had.len() as int] == *lane);
                } else {
                    assert(now =~= had + Seq::<Lane>::empty());
                }
                assert forall|k: int| 0 <= k < recorded@.len() implies taken(
                    block_type,
                    (#[trigger] recorded@[k]).deep_view(),
                    outcomes@,
                    now,
                    lanes@[n as int]@,
                ) by {
                    lemma_taken_more(
                        block_type,
                        recorded@[k].deep_view(),
                        outcomes@,
                        had,
                        if is_ready(*lane) {
                            seq![*lane]
                        } else {
                            Seq::<Lane>::empty()
                        },
                        lanes@[n as int]@,
                    );
                }
            }
            let ghost so_far = recorded@;
            proof {
                if lane.failed {
                    assert(lanes@[n as int]@[m as int].failed);
                    assert(some_failed(lanes@[n as int]@));
                }
            }
            if lane.parked.is_some() {
                row.push(lane.clone());
            } else if lane.failed {
                recorded.push(skipped());
                row.push(lane.clone());
            } else if next < outcomes.len() {
                let outcome = &outcomes[next];
                proof {
                    assert(outcomes@.take(next + 1).drop_last() == outcomes@.take(next as int));
                    assert(outcomes@.take(next + 1).last() == outcomes@[next as int]);
                    assert(outcomes@.take(outcomes@.len() as int) == outcomes@);
                }
                next += 1;
                match outcome {
                    Outcome::Fatal { error } => {
                        if fatal.is_none() {
                            fatal = Some(error.clone());
                        }
                    },
                    _ => {},
                }
                let execution = execution_of(block_type, outcome);
                proof {
                    let j = next - 1;
                    assert(stored(block_type, outcomes@[j], execution.deep_view()));
                    assert(j == had.len());
                    assert(0 <= j < outcomes@.len() && j < now.len() && 0 <= m
                        < lanes@[n as int]@.len() && now[j] == lanes@[n as int]@[m as int]
                        && stored(block_type, outcomes@[j], execution.deep_view()));
                    assert(taken(
                        block_type,
                        execution.deep_view(),
                        outcomes@,
                        now,
                        lanes@[n as int]@,
                    ));
                }
                row.push(lane_after(lane, name, &execution));
                recorded.push(execution);
                proof {
                    if execution.value is None {
                        assert(errored(recorded@[recorded@.len() - 1].deep_view()));
                        assert(some_errored(recorded@));
                    }
                }
            } else {
                proof {
                    reveal_strlit("Executions are missing");
                }
                if fatal.is_none() {
                    fatal = Some(String::from_str("Executions are missing"));
                }
                recorded.push(skipped());
                row.push(Lane { env: lane.env.clone(), failed: true, parked: lane.parked });
            }
            proof {
                if some_errored(so_far) {
                    let k = choose|k: int|
                        0 <= k < so_far.len() && errored((#[trigger] so_far[k]).deep_view());
                    assert(recorded@[k] == so_far[k]);
                    assert(some_errored(recorded@));
                }
            }
            m += 1;
        }
        assert(lanes@[n as int]@.take(m as int) == lanes@[n as int]@);
        proof {
            assert(lanes@.take(n + 1).drop_last() == lanes@.take(n as int));
            assert(lanes@.take(n + 1).last() == lanes@[n as int]);
            assert forall|i: int, k: int| 0 <= i < n && 0 <= k < rows@[i]@.len() implies taken(
                block_type,
                (#[trigger] rows@[i]@[k]).deep_view(),
                outcomes@,
                ready_lanes(lanes@.take(n + 1)),
                lanes@[i]@,
            ) by {
                lemma_taken_more(
                    block_type,
                    rows@[i]@[k].deep_view(),
                    outcomes@,
                    ready_lanes(lanes@.take(n as int)),
                    ready_row(lanes@[n as int]@),
                    lanes@[i]@,
                );
            }
        }
        out.push(row);
        rows.push(recorded);
        n += 1;
    }
    proof {
        assert(lanes@.take(n as int) == lanes@);
        reveal_strlit("There are more executions than were asked for");
    }
    if next != outcomes.len() && fatal.is_none() {
        fatal = Some(String::from_str("There are more executions than were asked for"));
    }
    proof {
        assert(widths(out@) =~= widths(lanes@));
        if all_awake(lanes@) {
            assert(heights(rows@) =~= widths(lanes@));
        }
    }
    Visit { lanes: out, rows, fatal }
}

/// What a run has recorded so far: the trace of each block, and how many executions of
/// each succeeded and failed.
pub struct Record {
    pub traces: Vec<Trace>,
    pub blocks: Vec<BlockStatus>,
    pub fatal: Option<String>,
}

/// The executions that the trace at a position holds for an input, as they are stored.
pub open spec fn trace_row(record: Record, position: int, input: int) -> Seq<Execution> {
    record.traces@[position].executions@[input].deep_view()
}

/// The numbers of executions that the trace at a position holds, input by input.
pub open spec fn trace_heights(traces: Seq<Trace>, position: int) -> Seq<nat> {
    heights(traces[position].executions@)
}

/// Whether a record is that of a run of `blocks` blocks over `inputs` inputs: a trace and a
/// status for each block, and in each trace a row for each input.
pub open spec fn shaped(record: Record, blocks: nat, inputs: nat) -> bool {
    &&& record.traces@.len() == blocks
    &&& record.blocks@.len() == blocks
    &&& forall|i: int|
        0 <= i < blocks ==> (#[trigger] record.traces@[i]).executions@.len() == inputs
}

/// The sums of two lists of numbers, position by position.
pub open spec fn sums(a: Seq<nat>, b: Seq<nat>) -> Seq<nat> {
    Seq::new(a.len(), |n: int| a[n] + b[n])
}

/// Adds what a visit of the block at a position recorded to the record of the run: the
/// executions behind those of the trace, input by input, and their number to the counts.
fn note(record: &mut Record, position: usize, rows: &Vec<Vec<BlockExecution>>)
    requires
        position < old(record).traces@.len(),
        old(record).blocks@.len() == old(record).traces@.len(),
        rows@.len() == old(record).traces@[position as int].executions@.len(),
    ensures
        final(record).traces@.len() == old(record).traces@.len(),
        final(record).blocks@.len() == old(record).blocks@.len(),
        final(record).fatal == old(record).fatal,
        forall|i: int|
            0 <= i < old(record).traces@.len() && i != position ==> final(record).traces@[i]
                == old(record).traces@[i],
        final(record).traces@[position as int].executions@.len() == rows@.len(),
        trace_heights(final(record).traces@, position as int) == sums(
            trace_heights(old(record).traces@, position as int),
            heights(rows@),
        ),
        final(record).traces@[position as int].block_type == old(record).traces@[position as int].block_type,
        final(record).traces@[position as int].name@ == old(record).traces@[position as int].name@,
        forall|i: int|
            0 <= i < old(record).blocks@.len() ==> (#[trigger] final(record).blocks@[i]).block_type
                == old(record).blocks@[i].block_type
                && final(record).blocks@[i].name@ == old(record).blocks@[i].name@,
        forall|n: int|
            0 <= n < rows@.len() ==> (#[trigger] final(
                record
            ).traces@[position as int].executions@[n]).deep_view()
                == old(record).traces@[position as int].executions@[n].deep_view()
                + rows@[n].deep_view(),
        forall|i: int|
            0 <= i < old(record).blocks@.len() && i != position ==> final(record).blocks@[i]
                == old(record).blocks@[i],
        final(record).blocks@[position as int].success_count == saturated(
            old(record).blocks@[position as int].success_count + successes(rows@),
        ),
        final(record).blocks@[position as int].error_count == saturated(
            old(record).blocks@[position as int].error_count + errors(rows@),
        ),
        final(record).blocks@[position as int].status == (if final(
            record
        ).blocks@[position as int].error_count > 0 {
            Status::Errored
        } else {
            Status::Succeeded
        }),
{
    let ghost before = record.traces@[position as int].executions@;
    let mut successes: usize = 0;
    let mut errors: usize = 0;
    let mut executions: Vec<Vec<BlockExecution>> = Vec::new();
    let mut n: usize = 0;
    assert(rows@.take(0) =~= Seq::empty());
    while n < rows.len()
        invariant
            n <= rows.len(),
            successes == saturated(self::successes(rows@.take(n as int)) as int),
            errors == saturated(self::errors(rows@.take(n as int)) as int),
            position < record.traces@.len(),
            rows@.len() == record.traces@[position as int].executions@.len(),
            before == record.traces@[position as int].executions@,
            executions@.len() == n,
            forall|k: int|
                0 <= k < n ==> (#[trigger] executions@[k])@.len() == before[k]@.len() + rows@[k]@.len(),
            forall|k: int|
                0 <= k < n ==> (#[trigger] executions@[k]).deep_view() == before[k].deep_view()
                    + rows@[k].deep_view(),
        decreases rows.len() - n,
    {
        let mut row = copy_row(&record.traces[position].executions[n]);
        assert(row@.len() == row.deep_view().len());
        assert(before[n as int]@.len() == before[n as int].deep_view().len());
        let mut m: usize = 0;
        let ghost counted = self::successes(rows@.take(n as int));
        let ghost failed = self::errors(rows@.take(n as int));
        assert(rows@[n as int].deep_view().take(0) =~= Seq::empty());
        assert(row.deep_view() =~= before[n as int].deep_view() + rows@[n as int].deep_view().take(0));
        while m < rows[n].len()
            invariant
                n < rows.len(),
                m <= rows@[n as int]@.len(),
                successes == saturated(
                    (counted + successes_in(rows@[n as int].deep_view().take(m as int))) as int,
                ),
                errors == saturated(
                    (failed + errors_in(rows@[n as int].deep_view().take(m as int))) as int,
                ),
                row@.len() == before[n as int]@.len() + m,
                row.deep_view() == before[n as int].deep_view() + rows@[n as int].deep_view().take(
                    m as int,
                ),
            decreases rows@[n as int]@.len() - m,
        {
            let ghost had = row.deep_view();
            let execution = rows[n][m].clone();
            proof {
                assert(rows@[n as int].deep_view().take(m + 1) =~= rows@[n as int].deep_view().take(
                    m as int,
                ).push(rows@[n as int]@[m as int].deep_view()));
                assert(rows@[n as int].deep_view().take(m + 1).drop_last()
                    == rows@[n as int].deep_view().take(m as int));
                assert(rows@[n as int].deep_view().take(m + 1).last()
                    == rows@[n as int]@[m as int].deep_view());
            }
            if execution.value.is_some() {
                if successes < usize::MAX {
                    successes += 1;
                }
            } else if execution.error.is_some() {
                if errors < usize::MAX {
                    errors += 1;
                }
            }
            row.push(execution);
            proof {
                assert(row.deep_view() =~= had.push(rows@[n as int]@[m as int].deep_view()));
            }
            m += 1;
        }
        proof {
            assert(rows@[n as int].deep_view().take(m as int) =~= rows@[n as int].deep_view());
            assert(rows@.take(n + 1).drop_last() == rows@.take(n as int));
            assert(rows@.take(n + 1).last() == rows@[n as int]);
        }
        executions.push(row);
        n += 1;
    }
    assert(rows@.take(n as int) == rows@);
    let trace = Trace {
        block_type: record.traces[position].block_type,
        name: record.traces[position].name.clone(),
        executions,
    };
    let old_status = &record.blocks[position];
    let error_count = if old_status.error_count <= usize::MAX - errors {
        old_status.error_count + errors
    } else {
        usize::MAX
    };
    let success_count = if old_status.success_count <= usize::MAX - successes {
        old_status.success_count + successes
    } else {
        usize::MAX
    };
    let status = BlockStatus {
        block_type: old_status.block_type,
        name: old_status.name.clone(),
        status: if error_count > 0 {
            Status::Errored
        } else {
            Status::Succeeded
        },
        success_count,
        error_count,
    };
    record.traces.set(position, trace);
    record.blocks.set(position, status);
    proof {
        assert(trace_heights(record.traces@, position as int) =~= sums(heights(before), heights(rows@)));
    }
}

/// The sum of a list of numbers.
pub open spec fn total(counts: Seq<usize>) -> nat
    decreases counts.len(),
{
    if counts.len() == 0 {
        0
    } else {
        (total(counts.drop_last()) + counts.last()) as nat
    }
}

/// The lanes that a `map` opens, and how many of them each of the lanes before has opened.
struct Expansion {
    pub children: Vec<Vec<Lane>>,
    pub counts: Vec<Vec<usize>>,
}

/// The items that a lane opens the scope of a `map` named `name` with: those of the array
/// that its state holds under that name. A lane that waits, or for which an execution has
/// failed, opens none, nor does one whose state holds no array there.
pub open spec fn opened_by(lane: Lane, name: Seq<char>) -> Seq<JsonValue> {
    if lane.parked is Some || lane.failed {
        Seq::empty()
    } else {
        match held(lane.env.state@, name) {
            Some(JsonValue::Array(items)) => items@,
            _ => Seq::empty(),
        }
    }
}

/// Whether a lane is the child that another opens for the item numbered `k`: it stands in
/// the scope with that number as its iteration and the item as its value, and its state is
/// the parent's with the item as the output of the `map`.
pub open spec fn is_child(child: Lane, parent: Lane, name: Seq<char>, k: int, item: JsonValue) -> bool {
    &&& !child.failed
    &&& child.parked is None
    &&& child.env.map is Some
    &&& child.env.map->0.name@ == name
    &&& child.env.map->0.iteration == k
    &&& child.env.map->0.value is Some
    &&& child.env.map->0.value->0@ == item@
    &&& state_entries(child.env.state@) == put(parent.env.state@, name, item@)
    &&& child.env.input.index == parent.env.input.index
    &&& same_origin(child.env, parent.env)
}

/// The children of a lane in the scope of a `map` named `name`: one for each item that the
/// lane opens the scope with, in the order of the items.
pub fn children_of(lane: &Lane, name: &str) -> (children: Vec<Lane>)
    ensures
        children@.len() == opened_by(*lane, name@).len(),
        forall|k: int|
            0 <= k < children@.len() ==> is_child(
                #[trigger] children@[k],
                *lane,
                name@,
                k,
                opened_by(*lane, name@)[k],
            ),
{
    let mut children: Vec<Lane> = Vec::new();
    if lane.parked.is_some() || lane.failed {
        return children;
    }
    match output_of(&lane.env.state, name) {
        Some(JsonValue::Array(items)) => {
            let mut k: usize = 0;
            while k < items.len()
                invariant
                    k <= items.len(),
                    items@ == opened_by(*lane, name@),
                    children@.len() == k,
                    forall|j: int|
                        0 <= j < k ==> is_child(#[trigger] children@[j], *lane, name@, j, items@[j]),
                decreases items.len() - k,
            {
                let child = Lane {
                    env: lane.env.with_scope(
                        with_output(&lane.env.state, name, items[k].clone()),
                        Some(
                            MapState {
                                name: String::from_str(name),
                                iteration: k,
                                value: Some(items[k].clone()),
                            },
                        ),
                    ),
                    failed: false,
                    parked: None,
                };
                children.push(child);
                k += 1;
            }
        },
        _ => {},
    }
    children
}

/// The number of lanes that a `map` has opened for an input, as its trace tells: that of
/// the items of the array that its last execution gave, none where it gave no value.
pub open spec fn fanout(row: Seq<crate::run::Execution>) -> nat {
    if row.len() == 0 {
        0
    } else {
        match row.last().value {
            Some(Json::Array(items)) => items.len(),
            _ => 0,
        }
    }
}

/// The value of the last execution of a row, if it has one.
pub open spec fn valued(row: Seq<crate::run::Execution>) -> Option<Json> {
    if row.len() == 0 {
        None
    } else {
        row.last().value
    }
}

/// A lane that a visit of a `map` has left opens as many lanes as the execution tells.
proof fn lemma_fanout(lane: Lane, execution: BlockExecution, name: Seq<char>, row: Seq<
    crate::run::Execution,
>)
    requires
        lane.parked is None,
        paired(lane, execution, name),
        fitting(BlockType::MapEach, execution),
        row.len() > 0,
        row.last() == execution.deep_view(),
    ensures
        opened_by(lane, name).len() == fanout(row),
{
    match execution.value {
        Some(value) => {
            let held = held(lane.env.state@, name)->0;
            assert(held@ == value@);
            assert(held@ is Array);
            assert(held is Array);
            assert(held@->Array_0.len() == held->Array_0@.len());
        },
        None => {},
    }
}

/// Whether the children of each input are as many as its lanes have opened.
spec fn counted(expansion: Expansion) -> bool {
    &&& expansion.children@.len() == expansion.counts@.len()
    &&& forall|n: int|
        0 <= n < expansion.counts@.len() ==> (#[trigger] expansion.children@[n])@.len() == total(
            expansion.counts@[n]@,
        )
}

/// Opens the scope of a `map` named `name`: each lane is replaced by its children.
fn expand(name: &str, lanes: &Vec<Vec<Lane>>) -> (e: Expansion)
    ensures
        counted(e),
        e.counts@.len() == lanes@.len(),
        forall|n: int| 0 <= n < lanes@.len() ==> (#[trigger] e.counts@[n])@.len() == lanes@[n]@.len(),
        all_awake(e.children@),
        single(lanes@) ==> forall|n: int|
            0 <= n < lanes@.len() ==> (#[trigger] e.children@[n])@.len() == opened_by(
                lanes@[n]@[0],
                name@,
            ).len(),
        forall|n: int, k: int|
            0 <= n < lanes@.len() && 0 <= k < e.children@[n]@.len() ==> from_row(
                #[trigger] e.children@[n]@[k],
                lanes@[n]@,
            ) && !e.children@[n]@[k].failed,
{
    let mut children: Vec<Vec<Lane>> = Vec::new();
    let mut counts: Vec<Vec<usize>> = Vec::new();
    let mut n: usize = 0;
    while n < lanes.len()
        invariant
            n <= lanes.len(),
            forall|i: int, k: int|
                0 <= i < n && 0 <= k < children@[i]@.len() ==> from_row(
                    #[trigger] children@[i]@[k],
                    lanes@[i]@,
                ) && !children@[i]@[k].failed,
            single(lanes@) ==> forall|k: int|
                0 <= k < n ==> (#[trigger] children@[k])@.len() == opened_by(
                    lanes@[k]@[0],
                    name@,
                ).len(),
            children@.len() == n,
            counts@.len() == n,
            forall|k: int| 0 <= k < n ==> (#[trigger] counts@[k])@.len() == lanes@[k]@.len(),
            forall|k: int| 0 <= k < n ==> (#[trigger] children@[k])@.len() == total(counts@[k]@),
            all_awake(children@),
        decreases lanes.len() - n,
    {
        let mut row: Vec<Lane> = Vec::new();
        let mut opened: Vec<usize> = Vec::new();
        let mut m: usize = 0;
        while m < lanes[n].len()
            invariant
                n < lanes.len(),
                m <= lanes@[n as int]@.len(),
                opened@.len() == m,
                row@.len() == total(opened@),
                forall|k: int| 0 <= k < row@.len() ==> (#[trigger] row@[k]).parked is None,
                forall|k: int|
                    0 <= k < row@.len() ==> from_row(#[trigger] row@[k], lanes@[n as int]@)
                        && !row@[k].failed,
                m == 0 ==> row@.len() == 0,
                m == 1 ==> row@.len() == opened_by(lanes@[n as int]@[0], name@).len(),
            decreases lanes@[n as int]@.len() - m,
        {
            let mut born = children_of(&lanes[n][m], name);
            let ghost before = opened@;
            let ghost had = row@.len();
            opened.push(born.len());
            proof {
                assert(opened@.drop_last() == before);
            }
            let mut k: usize = 0;
            while k < born.len()
                invariant
                    k <= born@.len(),
                    n < lanes.len(),
                    m < lanes@[n as int]@.len(),
                    row@.len() == had + k,
                    forall|j: int| 0 <= j < born@.len() ==> (#[trigger] born@[j]).parked is None,
                    forall|j: int| 0 <= j < row@.len() ==> (#[trigger] row@[j]).parked is None,
                    forall|j: int|
                        0 <= j < born@.len() ==> same_origin(
                            (#[trigger] born@[j]).env,
                            lanes@[n as int]@[m as int].env,
                        ) && !born@[j].failed,
                    forall|j: int|
                        0 <= j < row@.len() ==> from_row(#[trigger] row@[j], lanes@[n as int]@)
                            && !row@[j].failed,
                decreases born@.len() - k,
            {
                let child = born[k].clone();
                proof {
                    assert(same_origin(child.env, lanes@[n as int]@[m as int].env));
                    assert(from_row(child, lanes@[n as int]@));
                }
                row.push(child);
                k += 1;
            }
            m += 1;
        }
        children.push(row);
        counts.push(opened);
        n += 1;
    }
    Expansion { children, counts }
}

/// What a lane gives to a `reduce` that collects the outputs of the block named `target`:
/// the output that its state holds under that name, or `null` where it holds none, or where
/// an execution has failed for the lane.
pub open spec fn item_of(lane: Lane, target: Seq<char>) -> Json {
    if lane.failed {
        Json::Null
    } else {
        match held(lane.env.state@, target) {
            Some(value) => value@,
            None => Json::Null,
        }
    }
}

/// The outputs of a block in `count` lanes from `from` on, as one array, lane by lane.
pub fn collected(children: &Vec<Lane>, from: usize, count: usize, target: &str) -> (v: JsonValue)
    requires
        from + count <= children@.len(),
    ensures
        v@ == Json::Array(Seq::new(count as nat, |k: int| item_of(children@[from + k], target@))),
{
    let mut items: Vec<JsonValue> = Vec::new();
    let mut k: usize = 0;
    let available = children.len();
    while k < count
        invariant
            k <= count,
            from + count <= children@.len() <= usize::MAX,
            items@.len() == k,
            forall|j: int| 0 <= j < k ==> (#[trigger] items@[j])@ == item_of(children@[from + j], target@),
        decreases count - k,
    {
        let child = &children[from + k];
        let item = if child.failed {
            JsonValue::Null
        } else {
            match output_of(&child.env.state, target) {
                Some(value) => value.clone(),
                None => JsonValue::Null,
            }
        };
        items.push(item);
        k += 1;
    }
    let v = JsonValue::Array(items);
    assert(v@->Array_0 =~= Seq::new(
        count as nat,
        |k: int| item_of(children@[from + k], target@),
    ));
    v
}

/// Whether an execution is what a `reduce` records for a lane that opened `count` lanes:
/// an array of as many items, or nothing where an execution had failed for the lane.
pub open spec fn gathered(execution: BlockExecution, failed: bool, count: nat) -> bool {
    if failed {
        execution.value is None && execution.error is None
    } else {
        execution.error is None && execution.value is Some && execution.value->0@ is Array
            && execution.value->0@->Array_0.len() == count
    }
}

/// Closes the scope of a `map`: each lane that opened it takes, as the output of the
/// `reduce` named `name`, the array of what its children hold as the output of the block
/// named `target`.
fn reduce(
    name: &str,
    target: &str,
    parents: &Vec<Vec<Lane>>,
    expansion: &Expansion,
) -> (v: Visit)
    requires
        counted(*expansion),
        expansion.counts@.len() == parents@.len(),
        forall|n: int|
            0 <= n < parents@.len() ==> (#[trigger] expansion.counts@[n])@.len()
                == parents@[n]@.len(),
    ensures
        v.fatal is None,
        v.lanes@.len() == parents@.len(),
        v.rows@.len() == parents@.len(),
        widths(v.lanes@) == widths(parents@),
        forall|n: int, m: int|
            0 <= n < parents@.len() && 0 <= m < parents@[n]@.len() ==> (#[trigger] v.lanes@[n]@[m]).parked
                == parents@[n]@[m].parked,
        all_awake(parents@) ==> heights(v.rows@) == widths(parents@),
        single(parents@) ==> forall|n: int|
            0 <= n < parents@.len() ==> (#[trigger] v.rows@[n])@.len() == 1 && gathered(
                v.rows@[n]@[0],
                parents@[n]@[0].failed,
                expansion.children@[n]@.len(),
            ),
        forall|n: int, k: int|
            0 <= n < parents@.len() && 0 <= k < v.rows@[n]@.len() ==> own(
                BlockType::Reduce,
                (#[trigger] v.rows@[n]@[k]).deep_view(),
            ),
        forall|n: int, m: int|
            0 <= n < parents@.len() && 0 <= m < parents@[n]@.len() ==> same_origin(
                (#[trigger] v.lanes@[n]@[m]).env,
                parents@[n]@[m].env,
            ) && v.lanes@[n]@[m].failed == parents@[n]@[m].failed,
        forall|n: int, k: int|
            0 <= n < parents@.len() && 0 <= k < v.rows@[n]@.len() && blank(
                (#[trigger] v.rows@[n]@[k]).deep_view(),
            ) ==> some_failed(parents@[n]@),
{
    let mut out: Vec<Vec<Lane>> = Vec::new();
    let mut rows: Vec<Vec<BlockExecution>> = Vec::new();
    let mut n: usize = 0;
    while n < parents.len()
        invariant
            n <= parents.len(),
            forall|i: int, m: int|
                0 <= i < n && 0 <= m < parents@[i]@.len() ==> same_origin(
                    (#[trigger] out@[i]@[m]).env,
                    parents@[i]@[m].env,
                ) && out@[i]@[m].failed == parents@[i]@[m].failed,
            forall|i: int, k: int|
                0 <= i < n && 0 <= k < rows@[i]@.len() && blank(
                    (#[trigger] rows@[i]@[k]).deep_view(),
                ) ==> some_failed(parents@[i]@),
            forall|i: int, k: int|
                0 <= i < n && 0 <= k < rows@[i]@.len() ==> own(
                    BlockType::Reduce,
                    (#[trigger] rows@[i]@[k]).deep_view(),
                ),
            single(parents@) ==> forall|k: int|
                0 <= k < n ==> (#[trigger] rows@[k])@.len() == 1 && gathered(
                    rows@[k]@[0],
                    parents@[k]@[0].failed,
                    expansion.children@[k]@.len(),
                ),
            counted(*expansion),
            expansion.counts@.len() == parents@.len(),
            forall|k: int|
                0 <= k < parents@.len() ==> (#[trigger] expansion.counts@[k])@.len()
                    == parents@[k]@.len(),
            out@.len() == n,
            rows@.len() == n,
            forall|k: int| 0 <= k < n ==> (#[trigger] out@[k])@.len() == parents@[k]@.len(),
            forall|k: int, m: int|
                0 <= k < n && 0 <= m < parents@[k]@.len() ==> (#[trigger] out@[k]@[m]).parked
                    == parents@[k]@[m].parked,
            all_awake(parents@) ==> forall|k: int|
                0 <= k < n ==> (#[trigger] rows@[k])@.len() == parents@[k]@.len(),
        decreases parents.len() - n,
    {
        let mut row: Vec<Lane> = Vec::new();
        let mut recorded: Vec<BlockExecution> = Vec::new();
        let mut offset: usize = 0;
        let mut m: usize = 0;
        let ghost counts = expansion.counts@[n as int]@;
        let available = expansion.children[n].len();
        assert(expansion.children@[n as int]@.len() == total(counts));
        assert(expansion.children@[n as int]@.len() <= usize::MAX);
        assert(counts.take(0).len() == 0);
        while m < parents[n].len()
            invariant
                n < parents.len(),
                n < expansion.counts@.len(),
                n < expansion.children@.len(),
                counts == expansion.counts@[n as int]@,
                counts.len() == parents@[n as int]@.len(),
                expansion.children@[n as int]@.len() == total(counts),
                total(counts) <= usize::MAX,
                m <= parents@[n as int]@.len(),
                offset == total(counts.take(m as int)),
                row@.len() == m,
                forall|k: int|
                    0 <= k < m ==> same_origin(
                        (#[trigger] row@[k]).env,
                        parents@[n as int]@[k].env,
                    ) && row@[k].failed == parents@[n as int]@[k].failed,
                forall|k: int|
                    0 <= k < recorded@.len() && blank((#[trigger] recorded@[k]).deep_view())
                        ==> some_failed(parents@[n as int]@),
                forall|k: int|
                    0 <= k < recorded@.len() ==> own(
                        BlockType::Reduce,
                        (#[trigger] recorded@[k]).deep_view(),
                    ),
                forall|k: int|
                    0 <= k < m ==> (#[trigger] row@[k]).parked == parents@[n as int]@[k].parked,
                all_awake(parents@) ==> recorded@.len() == m,
                single(parents@) ==> recorded@.len() == m && (m == 1 ==> gathered(
                    recorded@[0],
                    parents@[n as int]@[0].failed,
                    counts[0] as nat,
                )),
            decreases parents@[n as int]@.len() - m,
        {
            let parent = &parents[n][m];
            let count = expansion.counts[n][m];
            proof {
                assert(counts.take(m + 1).drop_last() == counts.take(m as int));
                assert(counts.take(m + 1).last() == count);
                lemma_total_take(counts, m + 1);
            }
            proof {
                if parent.failed {
                    assert(parents@[n as int]@[m as int].failed);
                    assert(some_failed(parents@[n as int]@));
                }
            }
            if parent.parked.is_some() {
                row.push(parent.clone());
            } else if parent.failed {
                recorded.push(skipped());
                row.push(parent.clone());
            } else {
                let value = collected(&expansion.children[n], offset, count, target);
                let execution = BlockExecution { value: Some(value), error: None, meta: None };
                row.push(lane_after(parent, name, &execution));
                recorded.push(execution);
            }
            offset = offset + count;
            m += 1;
        }
        proof {
            if single(parents@) {
                assert(counts.len() == 1);
                assert(counts.drop_last().len() == 0);
                assert(total(counts.drop_last()) == 0);
                assert(counts.last() == counts[0]);
                assert(total(counts) == counts[0]);
            }
        }
        out.push(row);
        rows.push(recorded);
        n += 1;
    }
    proof {
        assert(widths(out@) =~= widths(parents@));
        if all_awake(parents@) {
            assert(heights(rows@) =~= widths(parents@));
        }
    }
    Visit { lanes: out, rows, fatal: None }
}

/// The sum of the first numbers of a list is at most the sum of all.
proof fn lemma_total_take(counts: Seq<usize>, n: int)
    requires
        0 <= n <= counts.len(),
    ensures
        total(counts.take(n)) <= total(counts),
    decreases counts.len() - n,
{
    if n < counts.len() {
        lemma_total_take(counts, n + 1);
        assert(counts.take(n + 1).drop_last() == counts.take(n));
    } else {
        assert(counts.take(n) == counts);
    }
}

/// What the engine itself gives for each environment in place of an execution: the input
/// for a `root` block, `false` for a `while` whose passes are used up, `null` for an `end`.
fn given(block_type: BlockType, envs: &Vec<Env>) -> (outcomes: Vec<Outcome>)
    ensures
        outcomes@.len() == envs@.len(),
        forall|k: int|
            0 <= k < envs@.len() ==> (#[trigger] outcomes@[k]) is Value && outcomes@[k]->value@
                == supplied(block_type, envs@[k]),
{
    let mut outcomes: Vec<Outcome> = Vec::new();
    let mut k: usize = 0;
    while k < envs.len()
        invariant
            k <= envs.len(),
            outcomes@.len() == k,
            forall|j: int|
                0 <= j < k ==> (#[trigger] outcomes@[j]) is Value && outcomes@[j]->value@
                    == supplied(block_type, envs@[j]),
        decreases envs.len() - k,
    {
        let value = match block_type {
            BlockType::Root => match &envs[k].input.value {
                Some(value) => value.clone(),
                None => JsonValue::Null,
            },
            BlockType::While => JsonValue::Bool(false),
            _ => JsonValue::Null,
        };
        outcomes.push(Outcome::Value { value });
        k += 1;
    }
    outcomes
}

/// Whether the lanes and the positions at which they wait are those of the lanes before.
pub open spec fn same_lanes(after: Seq<Vec<Lane>>, before: Seq<Vec<Lane>>) -> bool {
    &&& after.len() == before.len()
    &&& widths(after) == widths(before)
    &&& forall|n: int, m: int|
        0 <= n < before.len() && 0 <= m < before[n]@.len() ==> (#[trigger] after[n]@[m]).parked
            == before[n]@[m].parked
}

/// Whether the traces at all positions but those from `from` up to `to` are those of the
/// record before, and the record is still that of a run of as many blocks and inputs.
pub open spec fn same_outside(after: Record, before: Record, from: int, to: int, inputs: nat) -> bool {
    &&& shaped(after, before.traces@.len(), inputs)
    &&& forall|i: int|
        0 <= i < before.traces@.len() && !(from <= i < to) ==> (#[trigger] after.traces@[i])
            == before.traces@[i]
    &&& forall|i: int|
        0 <= i < before.traces@.len() ==> (#[trigger] after.traces@[i]).block_type
            == before.traces@[i].block_type && after.traces@[i].name@ == before.traces@[i].name@
    &&& forall|i: int|
        0 <= i < before.blocks@.len() ==> (#[trigger] after.blocks@[i]).block_type
            == before.blocks@[i].block_type && after.blocks@[i].name@ == before.blocks@[i].name@
    &&& before.fatal is Some ==> after.fatal is Some
}

/// What is recorded for a `root` block: the input, handed on.
pub open spec fn handed(input: Option<JsonValue>) -> crate::run::Execution {
    crate::run::Execution { value: Some(or_null(input)), error: None, meta: None }
}

/// Whether an execution of the block at `position` for the input numbered `input` is what
/// is recorded for an outcome that the executor gave for that block and for an environment
/// of that input: the executor was handed environments for the block, and gave this outcome
/// in the place of one that holds the input, the options and the secrets of the run. Where
/// the run is still `going`, what the executor gave then did not end it.
pub open spec fn executed<E: Executor>(
    block_type: BlockType,
    position: usize,
    input: int,
    origin: Origin,
    going: bool,
    e: Execution,
) -> bool {
    exists|asked: &mut E, envs: Vec<Env>, outcomes: Vec<Outcome>, j: int|
        #![trigger call_ensures(E::execute, (asked, position, &envs), outcomes), outcomes@[j]]
        call_ensures(E::execute, (asked, position, &envs), outcomes) && 0 <= j < outcomes@.len()
            && j < envs@.len() && stored(block_type, outcomes@[j], e) && of_input(
            envs@[j],
            input,
            origin,
        ) && (going ==> ending(outcomes@, envs@.len() as nat) is None)
}

/// Whether an execution of the block at `position` for the input numbered `input` is
/// accounted for: the engine has recorded it by itself, or it is what is recorded for an
/// outcome that the executor gave for that block and an environment of that input. Where
/// the execution is an `early` one of a `while`, one of the first `max_iterations` of its
/// row, the engine has not given its value: the passes were not used up yet.
pub open spec fn accounted<E: Executor>(
    block_type: BlockType,
    position: usize,
    input: int,
    origin: Origin,
    going: bool,
    early: bool,
    e: Execution,
) -> bool {
    (own(block_type, e) && (early ==> e.value is None)) || executed::<E>(
        block_type,
        position,
        input,
        origin,
        going,
        e,
    )
}

/// Whether the execution numbered `k` in a row of the trace of the block at position `i` is
/// an early one of a `while`: one of the first `max_iterations`.
pub open spec fn early(blocks: Seq<AppBlock>, i: int, k: int) -> bool {
    0 <= i < blocks.len() && blocks[i].block_type == BlockType::While && k
        < blocks[i].max_iterations
}

/// An execution that is accounted for while the run is going is accounted for once it has
/// ended.
proof fn lemma_accounted_ended<E: Executor>(
    block_type: BlockType,
    position: usize,
    input: int,
    origin: Origin,
    going: bool,
    early: bool,
    e: Execution,
)
    requires
        accounted::<E>(block_type, position, input, origin, going, early, e),
    ensures
        accounted::<E>(block_type, position, input, origin, false, early, e),
{
    if !(own(block_type, e) && (early ==> e.value is None)) {
        let (asked, envs, outcomes, j) = choose|
            asked: &mut E,
            envs: Vec<Env>,
            outcomes: Vec<Outcome>,
            j: int,
        |
            #![trigger call_ensures(E::execute, (asked, position, &envs), outcomes), outcomes@[j]]
            call_ensures(E::execute, (asked, position, &envs), outcomes) && 0 <= j
                < outcomes@.len() && j < envs@.len() && stored(block_type, outcomes@[j], e)
                && of_input(envs@[j], input, origin) && (going ==> ending(
                outcomes@,
                envs@.len() as nat,
            ) is None);
        assert(call_ensures(E::execute, (asked, position, &envs), outcomes) && 0 <= j
            < outcomes@.len() && j < envs@.len() && stored(block_type, outcomes@[j], e) && of_input(
            envs@[j],
            input,
            origin,
        ));
    }
}

/// Whether a run that has ended early was ended by the executor: by what it gave for a
/// block, an outcome that ends the run or outcomes too few or too many for the
/// environments it was handed, or by the error with which it took note of a block.
pub open spec fn ended_by<E: Executor>(fatal: Option<String>) -> bool {
    fatal is Some ==> {
        ||| exists|asked: &mut E, position: usize, envs: Vec<Env>, outcomes: Vec<Outcome>|
            #[trigger] call_ensures(E::execute, (asked, position, &envs), outcomes) && ending(
                outcomes@,
                envs@.len() as nat,
            ) == text_of(fatal)
        ||| exists|
            asked: &mut E,
            position: usize,
            rows: Vec<Vec<BlockExecution>>,
            said: Result<(), String>,
        |
            #[trigger] call_ensures(E::settled, (asked, position, &rows), said) && said
                == Err::<(), String>(fatal->0)
    }
}

/// Whether the counts of each block are those of its trace: the executions that have a
/// value, and those that have an error and no value. A block that has not been executed is
/// running; any other has succeeded unless one of its executions has an error.
pub open spec fn tallied(record: Record) -> bool {
    forall|i: int|
        0 <= i < record.blocks@.len() ==> {
            &&& (#[trigger] record.blocks@[i]).success_count == saturated(
                successes(record.traces@[i].executions@) as int,
            )
            &&& record.blocks@[i].error_count == saturated(
                errors(record.traces@[i].executions@) as int,
            )
            &&& record.blocks@[i].status != Status::Running ==> (record.blocks@[i].status
                == Status::Errored) == (record.blocks@[i].error_count > 0)
        }
}

/// Whether some execution for the input numbered `input` has failed.
pub open spec fn errored_for(record: Record, input: int) -> bool {
    exists|i: int, k: int|
        #![trigger record.traces@[i].executions@[input]@[k]]
        0 <= i < record.traces@.len() && 0 <= input < record.traces@[i].executions@.len() && 0 <= k
            < record.traces@[i].executions@[input]@.len() && errored(
            record.traces@[i].executions@[input]@[k].deep_view(),
        )
}

/// Whether a record holds what another holds and more: each trace has the executions of
/// the other, input by input, in front of its own, and a run that had ended has ended.
pub open spec fn extends(after: Record, before: Record) -> bool {
    &&& after.traces@.len() == before.traces@.len()
    &&& forall|i: int|
        0 <= i < before.traces@.len() ==> (#[trigger] after.traces@[i]).executions@.len()
            == before.traces@[i].executions@.len()
    &&& forall|i: int, n: int|
        0 <= i < before.traces@.len() && 0 <= n < before.traces@[i].executions@.len() ==> (
        #[trigger] after.traces@[i].executions@[n])@.len()
            >= before.traces@[i].executions@[n]@.len()
    &&& forall|i: int, n: int, k: int|
        0 <= i < before.traces@.len() && 0 <= n < before.traces@[i].executions@.len() && 0 <= k
            < before.traces@[i].executions@[n]@.len() ==> (
        #[trigger] after.traces@[i].executions@[n]@[k]).deep_view()
            == before.traces@[i].executions@[n]@[k].deep_view()
    &&& before.fatal is Some ==> after.fatal is Some
}

/// A record that holds more than one that holds more than a third holds more than the third.
proof fn lemma_extends(a: Record, b: Record, c: Record)
    requires
        extends(a, b),
        extends(b, c),
    ensures
        extends(a, c),
{
    assert forall|i: int, n: int|
        0 <= i < c.traces@.len() && 0 <= n < c.traces@[i].executions@.len() implies (
    #[trigger] a.traces@[i].executions@[n])@.len() >= c.traces@[i].executions@[n]@.len() by {
        assert(b.traces@[i].executions@.len() == c.traces@[i].executions@.len());
        assert(b.traces@[i].executions@[n]@.len() >= c.traces@[i].executions@[n]@.len());
    }
    assert forall|i: int, n: int, k: int|
        0 <= i < c.traces@.len() && 0 <= n < c.traces@[i].executions@.len() && 0 <= k
            < c.traces@[i].executions@[n]@.len() implies (
    #[trigger] a.traces@[i].executions@[n]@[k]).deep_view()
        == c.traces@[i].executions@[n]@[k].deep_view() by {
        assert(b.traces@[i].executions@.len() == c.traces@[i].executions@.len());
        assert(b.traces@[i].executions@[n]@.len() >= c.traces@[i].executions@[n]@.len());
        assert(b.traces@[i].executions@[n]@[k].deep_view()
            == c.traces@[i].executions@[n]@[k].deep_view());
    }
}

/// An execution that has failed for an input is still there in a record that holds more.
proof fn lemma_errored_kept(after: Record, before: Record, input: int)
    requires
        extends(after, before),
        errored_for(before, input),
    ensures
        errored_for(after, input),
{
    let (i, k) = choose|i: int, k: int|
        #![trigger before.traces@[i].executions@[input]@[k]]
        0 <= i < before.traces@.len() && 0 <= input < before.traces@[i].executions@.len() && 0 <= k
            < before.traces@[i].executions@[input]@.len() && errored(
            before.traces@[i].executions@[input]@[k].deep_view(),
        );
    assert(after.traces@[i].executions@.len() == before.traces@[i].executions@.len());
    assert(after.traces@[i].executions@[input]@.len()
        >= before.traces@[i].executions@[input]@.len());
    assert(after.traces@[i].executions@[input]@[k].deep_view()
        == before.traces@[i].executions@[input]@[k].deep_view());
}

/// Whether each lane for which an execution has failed is a lane of an input for which the
/// record holds an execution that has failed, as long as the run has not ended early.
pub open spec fn excused(lanes: Seq<Vec<Lane>>, record: Record) -> bool {
    record.fatal is None ==> forall|n: int, m: int|
        0 <= n < lanes.len() && 0 <= m < lanes[n]@.len() && (#[trigger] lanes[n]@[m]).failed
            ==> errored_for(record, n)
}

/// Lanes that are excused by a record are excused by one that holds more.
proof fn lemma_excused_kept(lanes: Seq<Vec<Lane>>, before: Record, after: Record)
    requires
        excused(lanes, before),
        extends(after, before),
    ensures
        excused(lanes, after),
{
    if after.fatal is None {
        assert forall|n: int, m: int|
            0 <= n < lanes.len() && 0 <= m < lanes[n]@.len() && (#[trigger] lanes[n]@[m]).failed
            implies errored_for(after, n) by {
            lemma_errored_kept(after, before, n);
        }
    }
}

/// Lanes for which executions have failed as for lanes that are excused are excused.
proof fn lemma_excused_same(after: Seq<Vec<Lane>>, before: Seq<Vec<Lane>>, record: Record)
    requires
        excused(before, record),
        after.len() == before.len(),
        widths(after) == widths(before),
        forall|n: int, m: int|
            0 <= n < before.len() && 0 <= m < before[n]@.len() ==> (#[trigger] after[n]@[m]).failed
                == before[n]@[m].failed,
    ensures
        excused(after, record),
{
    if record.fatal is None {
        assert forall|n: int, m: int|
            0 <= n < after.len() && 0 <= m < after[n]@.len() && (#[trigger] after[n]@[m]).failed
            implies errored_for(record, n) by {
            assert(widths(after)[n] == after[n]@.len());
            assert(widths(before)[n] == before[n]@.len());
            assert(before[n]@[m].failed);
        }
    }
}

/// Whether each execution that was not made is one for an input for which an execution has
/// failed, as long as the run has not ended early.
pub open spec fn justified(record: Record) -> bool {
    record.fatal is None ==> forall|i: int, n: int, k: int|
        0 <= i < record.traces@.len() && 0 <= n < record.traces@[i].executions@.len() && 0 <= k
            < record.traces@[i].executions@[n]@.len() && blank(
            (#[trigger] record.traces@[i].executions@[n]@[k]).deep_view(),
        ) ==> errored_for(record, n)
}

/// Whether a record holds what the run has come to by the executor alone: each execution
/// is accounted for, none is left out but for an input for which an execution has failed,
/// the counts are those of the traces, and the run has not ended early but by the executor.
pub open spec fn sound<E: Executor>(record: Record, origin: Origin, blocks: Seq<AppBlock>) -> bool {
    &&& ended_by::<E>(record.fatal)
    &&& tallied(record)
    &&& justified(record)
    &&& forall|i: int, n: int, k: int|
        0 <= i < record.traces@.len() && 0 <= n < record.traces@[i].executions@.len() && 0 <= k
            < record.traces@[i].executions@[n]@.len() ==> accounted::<E>(
            record.traces@[i].block_type,
            i as usize,
            n,
            origin,
            record.fatal is None,
            early(blocks, i, k),
            (#[trigger] record.traces@[i].executions@[n]@[k]).deep_view(),
        )
}

/// Whether a record is sound and the trace of each block names the kind of the block.
pub open spec fn upheld<E: Executor>(record: Record, blocks: Seq<AppBlock>, origin: Origin) -> bool {
    &&& sound::<E>(record, origin, blocks)
    &&& forall|i: int|
        0 <= i < blocks.len() && i < record.traces@.len() ==> (#[trigger] record.traces@[i]).block_type
            == blocks[i].block_type
}

/// Rows without executions count nothing.
proof fn lemma_counts_empty(rows: Seq<Vec<BlockExecution>>)
    requires
        forall|n: int| 0 <= n < rows.len() ==> (#[trigger] rows[n])@.len() == 0,
    ensures
        successes(rows) == 0,
        errors(rows) == 0,
    decreases rows.len(),
{
    if rows.len() > 0 {
        assert forall|n: int| 0 <= n < rows.drop_last().len() implies (
        #[trigger] rows.drop_last()[n])@.len() == 0 by {
            assert(rows.drop_last()[n] == rows[n]);
        }
        lemma_counts_empty(rows.drop_last());
        assert(rows.last() == rows[rows.len() - 1]);
        assert(rows.last().deep_view() =~= Seq::empty());
    }
}

/// Executes the block at a position for the lanes that have come to it, and records what
/// the executions gave. `local` says that the engine gives the values itself.
#[verifier::rlimit(60)]
#[verifier::spinoff_prover]
fn visit<E: Executor>(
    app: &App,
    position: usize,
    local: bool,
    lanes: Vec<Vec<Lane>>,
    record: &mut Record,
    executor: &mut E,
    Ghost(origin): Ghost<Origin>,
) -> (after: Vec<Vec<Lane>>)
    requires
        position < app.blocks().len(),
        shaped(*old(record), app.blocks().len(), lanes@.len() as nat),
        rooted(lanes@, origin),
        excused(lanes@, *old(record)),
        local && app.blocks()[position as int].block_type == BlockType::While ==> forall|n: int|
            0 <= n < lanes@.len() && awake(lanes@[n]@) > 0 ==> (#[trigger] trace_heights(
                old(record).traces@,
                position as int,
            )[n]) >= app.blocks()[position as int].max_iterations,
        upheld::<E>(*old(record), app.blocks(), origin),
        local ==> app.blocks()[position as int].block_type == BlockType::Root || app.blocks()[
            position as int
        ].block_type == BlockType::While || app.blocks()[position as int].block_type
            == BlockType::End,
    ensures
        upheld::<E>(*final(record), app.blocks(), origin),
        rooted(after@, origin),
        excused(after@, *final(record)),
        extends(*final(record), *old(record)),
        forall|n: int|
            0 <= n < lanes@.len() && lanes@[n]@.len() == 1 ==> visited_row(
                lanes@[n]@[0],
                (#[trigger] after@[n])@[0],
                trace_row(*old(record), position as int, n),
                trace_row(*final(record), position as int, n),
                app.blocks()[position as int].name@,
                local,
                app.blocks()[position as int].block_type,
            ),
        old(record).fatal is Some ==> final(record).fatal == old(record).fatal,
        same_lanes(after@, lanes@),
        same_outside(*final(record), *old(record), position as int, position + 1, lanes@.len() as nat),
        all_awake(lanes@) ==> trace_heights(final(record).traces@, position as int) == sums(
            trace_heights(old(record).traces@, position as int),
            widths(lanes@),
        ),
        forall|n: int|
            0 <= n < lanes@.len() ==> (#[trigger] trace_heights(
                final(record).traces@,
                position as int,
            )[n]) <= trace_heights(old(record).traces@, position as int)[n] + lanes@[n]@.len(),
        forall|n: int|
            0 <= n < lanes@.len() ==> (#[trigger] trace_heights(
                final(record).traces@,
                position as int,
            )[n]) == trace_heights(old(record).traces@, position as int)[n] + awake(lanes@[n]@),
        local && app.blocks()[position as int].block_type == BlockType::Root && fresh(lanes@)
            ==> forall|n: int|
            0 <= n < lanes@.len() ==> (#[trigger] final(
                record
            ).traces@[position as int].executions@[n]).deep_view()
                == old(record).traces@[position as int].executions@[n].deep_view().push(
                handed(lanes@[n]@[0].env.input.value),
            ),
        app.blocks()[position as int].block_type == BlockType::MapEach && single(lanes@)
            ==> forall|n: int|
            0 <= n < lanes@.len() ==> opened_by(
                (#[trigger] after@[n])@[0],
                app.blocks()[position as int].name@,
            ).len() == fanout(final(record).traces@[position as int].executions@[n].deep_view())
                && after@[n]@[0].failed == (valued(
                final(record).traces@[position as int].executions@[n].deep_view(),
            ) is None),
{
    let block = app.block(position);
    let envs = ready(&lanes);
    let outcomes = if local {
        given(block.block_type, &envs)
    } else {
        executor.execute(position, &envs)
    };
    let v = settle(block.block_type, block.name.as_str(), &lanes, &outcomes);
    let ghost before = *record;
    let ghost going = before.fatal is None && v.fatal is None;
    note(record, position, &v.rows);
    let ghost noted = *record;
    proof {
        assert(types_of(app.blocks())[position as int] == block.block_type);
        assert(before.traces@[position as int].block_type == block.block_type);
        if local {
            lemma_values_go_on(outcomes@);
            assert(ending(outcomes@, ready_lanes(lanes@).len()) is None);
        }
        if fresh(lanes@) {
            lemma_ready_fresh(lanes@);
        }
        lemma_rooted_kept(v.lanes@, lanes@, origin);
        // Each execution of the trace was there before, or is one of the visit.
        assert forall|i: int, n: int, k: int|
            0 <= i < record.traces@.len() && 0 <= n < record.traces@[i].executions@.len() && 0 <= k
                < record.traces@[i].executions@[n]@.len() implies accounted::<E>(
            record.traces@[i].block_type,
            i as usize,
            n,
            origin,
            going,
            early(app.blocks(), i, k),
            (#[trigger] record.traces@[i].executions@[n]@[k]).deep_view(),
        ) by {
            if i != position {
                assert(record.traces@[i] == before.traces@[i]);
                lemma_accounted_ended::<E>(
                    before.traces@[i].block_type,
                    i as usize,
                    n,
                    origin,
                    before.fatal is None,
                    early(app.blocks(), i, k),
                    before.traces@[i].executions@[n]@[k].deep_view(),
                );
            } else {
                let had = before.traces@[i].executions@[n];
                let row = record.traces@[i].executions@[n];
                assert(row.deep_view() == had.deep_view() + v.rows@[n].deep_view());
                assert(row.deep_view()[k] == row@[k].deep_view());
                if k < had@.len() {
                    assert(had.deep_view()[k] == had@[k].deep_view());
                    assert(accounted::<E>(
                        before.traces@[i].block_type,
                        i as usize,
                        n,
                        origin,
                        before.fatal is None,
                        early(app.blocks(), i, k),
                        had@[k].deep_view(),
                    ));
                    lemma_accounted_ended::<E>(
                        before.traces@[i].block_type,
                        i as usize,
                        n,
                        origin,
                        before.fatal is None,
                        early(app.blocks(), i, k),
                        had@[k].deep_view(),
                    );
                } else {
                    let e = v.rows@[n]@[k - had@.len()];
                    assert(v.rows@[n].deep_view()[k - had@.len()] == e.deep_view());
                    assert(taken(
                        block.block_type,
                        e.deep_view(),
                        outcomes@,
                        ready_lanes(lanes@),
                        lanes@[n]@,
                    ));
                    if !blank(e.deep_view()) {
                        let (j, m) = choose|j: int, m: int|
                            #![trigger outcomes@[j], lanes@[n]@[m]]
                            0 <= j < outcomes@.len() && j < ready_lanes(lanes@).len() && 0 <= m
                                < lanes@[n]@.len() && ready_lanes(lanes@)[j] == lanes@[n]@[m]
                                && stored(block.block_type, outcomes@[j], e.deep_view());
                        if local {
                            assert(outcomes@[j] is Value);
                            assert(own(block.block_type, e.deep_view()));
                            if block.block_type == BlockType::While {
                                assert(v.rows@[n]@.len() == awake(lanes@[n]@));
                                assert(trace_heights(before.traces@, position as int)[n]
                                    == had@.len());
                                assert(!early(app.blocks(), i, k));
                            }
                        } else {
                            assert(alike(envs@[j], ready_lanes(lanes@)[j].env));
                            assert(of_input(lanes@[n]@[m].env, n, origin));
                            assert(of_input(envs@[j], n, origin));
                            assert(executed::<E>(
                                block.block_type,
                                position,
                                n,
                                origin,
                                going,
                                e.deep_view(),
                            ));
                        }
                    }
                }
            }
        }
        assert(tallied(*record)) by {
            lemma_counts_joined(
                record.traces@[position as int].executions@,
                before.traces@[position as int].executions@,
                v.rows@,
            );
            assert forall|i: int| 0 <= i < record.blocks@.len() implies (
            #[trigger] record.blocks@[i]).success_count == saturated(
                successes(record.traces@[i].executions@) as int,
            ) && record.blocks@[i].error_count == saturated(
                errors(record.traces@[i].executions@) as int,
            ) && (record.blocks@[i].status != Status::Running ==> (record.blocks@[i].status
                == Status::Errored) == (record.blocks@[i].error_count > 0)) by {
                if i != position {
                    assert(record.traces@[i] == before.traces@[i]);
                    assert(record.blocks@[i] == before.blocks@[i]);
                }
            }
        }
    }
    proof {
        if block.block_type == BlockType::MapEach && single(lanes@) {
            assert forall|n: int| 0 <= n < lanes@.len() implies opened_by(
                (#[trigger] v.lanes@[n])@[0],
                block.name@,
            ).len() == fanout(record.traces@[position as int].executions@[n].deep_view())
                && v.lanes@[n]@[0].failed == (valued(
                record.traces@[position as int].executions@[n].deep_view(),
            ) is None) by {
                assert(widths(v.lanes@)[n] == widths(lanes@)[n]);
                assert(v.lanes@[n]@[0].parked == lanes@[n]@[0].parked);
                assert(v.rows@[n].deep_view().last() == v.rows@[n]@[0].deep_view());
                lemma_fanout(
                    v.lanes@[n]@[0],
                    v.rows@[n]@[0],
                    block.name@,
                    record.traces@[position as int].executions@[n].deep_view(),
                );
            }
        }
        if local && block.block_type == BlockType::Root && fresh(lanes@) {
            assert forall|n: int| 0 <= n < lanes@.len() implies (
            #[trigger] v.rows@[n]).deep_view() == seq![handed(lanes@[n]@[0].env.input.value)] by {
                assert(records(block.block_type, outcomes@[n], v.rows@[n]@[0]));
                assert(outcomes@[n]->value@ == or_null(envs@[n].input.value));
                assert(v.rows@[n].deep_view() =~= seq![v.rows@[n]@[0].deep_view()]);
            }
        }
    }
    if record.fatal.is_none() {
        match v.fatal {
            Some(message) => {
                record.fatal = Some(message);
            },
            None => {
                let said = executor.settled(position, &v.rows);
                match said {
                    Ok(_) => {},
                    Err(message) => {
                        record.fatal = Some(message);
                    },
                }
            },
        }
    }
    proof {
        assert forall|i: int, n: int, k: int|
            0 <= i < record.traces@.len() && 0 <= n < record.traces@[i].executions@.len() && 0 <= k
                < record.traces@[i].executions@[n]@.len() implies accounted::<E>(
            record.traces@[i].block_type,
            i as usize,
            n,
            origin,
            record.fatal is None,
            early(app.blocks(), i, k),
            (#[trigger] record.traces@[i].executions@[n]@[k]).deep_view(),
        ) by {
            assert(record.traces@[i].executions@[n]@[k] == noted.traces@[i].executions@[n]@[k]);
            lemma_accounted_ended::<E>(
                noted.traces@[i].block_type,
                i as usize,
                n,
                origin,
                going,
                early(app.blocks(), i, k),
                noted.traces@[i].executions@[n]@[k].deep_view(),
            );
        }
        // What the visit leaves of an input that has come with one lane.
        assert forall|n: int| 0 <= n < lanes@.len() && lanes@[n]@.len() == 1 implies visited_row(
            lanes@[n]@[0],
            (#[trigger] v.lanes@[n])@[0],
            trace_row(before, position as int, n),
            trace_row(*record, position as int, n),
            block.name@,
            local,
            block.block_type,
        ) by {
            let had = trace_row(before, position as int, n);
            let row = trace_row(*record, position as int, n);
            assert(record.traces@[position as int] == noted.traces@[position as int]);
            assert(row == had + v.rows@[n].deep_view());
            assert(v.rows@[n]@.len() == awake(lanes@[n]@));
            assert(lanes@[n]@.drop_last().len() == 0);
            assert(awake(lanes@[n]@.drop_last()) == 0);
            assert(lanes@[n]@.last() == lanes@[n]@[0]);
            assert(v.rows@[n].deep_view().len() == v.rows@[n]@.len());
            if lanes@[n]@[0].parked is Some {
                assert(row =~= had);
            } else {
                let e = v.rows@[n]@[0];
                assert(v.rows@[n].deep_view()[0] == e.deep_view());
                assert(row.drop_last() =~= had);
                assert(row.last() == e.deep_view());
                assert(paired(v.lanes@[n]@[0], e, block.name@));
                assert(paired_view(v.lanes@[n]@[0], e.deep_view(), block.name@));
                if local {
                    assert(taken(
                        block.block_type,
                        e.deep_view(),
                        outcomes@,
                        ready_lanes(lanes@),
                        lanes@[n]@,
                    ));
                    if !blank(e.deep_view()) {
                        let (j, m) = choose|j: int, m: int|
                            #![trigger outcomes@[j], lanes@[n]@[m]]
                            0 <= j < outcomes@.len() && j < ready_lanes(lanes@).len() && 0 <= m
                                < lanes@[n]@.len() && ready_lanes(lanes@)[j] == lanes@[n]@[m]
                                && stored(block.block_type, outcomes@[j], e.deep_view());
                        assert(outcomes@[j] is Value);
                    }
                    assert(own(block.block_type, e.deep_view()));
                }
            }
        }
        // The record holds what it held, and the executions of the visit behind it.
        assert(extends(*record, before)) by {
            assert forall|i: int, n: int|
                0 <= i < before.traces@.len() && 0 <= n < before.traces@[i].executions@.len() implies (
            #[trigger] record.traces@[i].executions@[n])@.len()
                >= before.traces@[i].executions@[n]@.len() && forall|k: int|
                0 <= k < before.traces@[i].executions@[n]@.len() ==> (
                #[trigger] record.traces@[i].executions@[n]@[k]).deep_view()
                    == before.traces@[i].executions@[n]@[k].deep_view() by {
                if i == position {
                    let had = before.traces@[i].executions@[n];
                    let row = record.traces@[i].executions@[n];
                    assert(row.deep_view() == had.deep_view() + v.rows@[n].deep_view());
                    assert(row.deep_view().len() == row@.len());
                    assert(had.deep_view().len() == had@.len());
                    assert forall|k: int| 0 <= k < had@.len() implies (#[trigger] row@[k]).deep_view()
                        == had@[k].deep_view() by {
                        assert(row.deep_view()[k] == row@[k].deep_view());
                        assert(had.deep_view()[k] == had@[k].deep_view());
                    }
                } else {
                    assert(record.traces@[i] == before.traces@[i]);
                }
            }
        }
        if record.fatal is None {
            assert(before.fatal is None && v.fatal is None);
            // A lane for which an execution has failed had failed before, or has failed now.
            assert forall|n: int, m: int|
                0 <= n < v.lanes@.len() && 0 <= m < v.lanes@[n]@.len() && (
                #[trigger] v.lanes@[n]@[m]).failed implies errored_for(*record, n) by {
                assert(widths(v.lanes@)[n] == v.lanes@[n]@.len());
                assert(widths(lanes@)[n] == lanes@[n]@.len());
                if some_failed(lanes@[n]@) {
                    let w = choose|w: int| 0 <= w < lanes@[n]@.len() && (#[trigger] lanes@[n]@[w]).failed;
                    assert(errored_for(before, n));
                    lemma_errored_kept(*record, before, n);
                } else {
                    assert(some_errored(v.rows@[n]@));
                    let k = choose|k: int|
                        0 <= k < v.rows@[n]@.len() && errored((#[trigger] v.rows@[n]@[k]).deep_view());
                    let had = before.traces@[position as int].executions@[n];
                    let row = record.traces@[position as int].executions@[n];
                    assert(row.deep_view() == had.deep_view() + v.rows@[n].deep_view());
                    assert(row.deep_view().len() == row@.len());
                    assert(had.deep_view().len() == had@.len());
                    assert(v.rows@[n].deep_view().len() == v.rows@[n]@.len());
                    assert(row.deep_view()[had@.len() + k] == row@[had@.len() + k].deep_view());
                    assert(v.rows@[n].deep_view()[k] == v.rows@[n]@[k].deep_view());
                    assert(errored(
                        record.traces@[position as int].executions@[n]@[had@.len() + k].deep_view(),
                    ));
                }
            }
            // An execution that was not made is one for a lane that had failed.
            assert forall|i: int, n: int, k: int|
                0 <= i < record.traces@.len() && 0 <= n < record.traces@[i].executions@.len() && 0
                    <= k < record.traces@[i].executions@[n]@.len() && blank(
                    (#[trigger] record.traces@[i].executions@[n]@[k]).deep_view(),
                ) implies errored_for(*record, n) by {
                let had = before.traces@[i].executions@[n];
                let row = record.traces@[i].executions@[n];
                if i != position {
                    assert(record.traces@[i] == before.traces@[i]);
                    assert(blank(before.traces@[i].executions@[n]@[k].deep_view()));
                    lemma_errored_kept(*record, before, n);
                } else if k < had@.len() {
                    assert(row@[k].deep_view() == had@[k].deep_view());
                    assert(blank(before.traces@[i].executions@[n]@[k].deep_view()));
                    lemma_errored_kept(*record, before, n);
                } else {
                    assert(row.deep_view() == had.deep_view() + v.rows@[n].deep_view());
                    assert(row.deep_view().len() == row@.len());
                    assert(had.deep_view().len() == had@.len());
                    assert(row.deep_view()[k] == row@[k].deep_view());
                    assert(v.rows@[n].deep_view()[k - had@.len()] == v.rows@[n]@[k
                        - had@.len()].deep_view());
                    assert(blank(v.rows@[n]@[k - had@.len()].deep_view()));
                    assert(some_failed(lanes@[n]@));
                    let w = choose|w: int| 0 <= w < lanes@[n]@.len() && (#[trigger] lanes@[n]@[w]).failed;
                    assert(errored_for(before, n));
                    lemma_errored_kept(*record, before, n);
                }
            }
        }
    }
    v.lanes
}

/// Whether a lane goes on with the next pass of the `while` named `name`: it does where it
/// does not wait, no execution has failed for it, and its state holds `true` under that
/// name.
pub open spec fn proceeds(lane: Lane, name: Seq<char>) -> bool {
    lane.parked is None && !lane.failed && held(lane.env.state@, name) == Some(
        JsonValue::Bool(true),
    )
}

/// Whether a lane goes on with the next pass of the `while` named `name`: it does where it
/// does not wait, no execution has failed for it, and its state holds `true` under that
/// name.
fn goes_on(lane: &Lane, name: &str) -> (r: bool)
    ensures
        r == proceeds(*lane, name@),
{
    if lane.parked.is_some() || lane.failed {
        return false;
    }
    match output_of(&lane.env.state, name) {
        Some(JsonValue::Bool(b)) => *b,
        _ => false,
    }
}

/// Whether a lane is what a pass of the `while` at `position`, named `name`, makes of
/// another. A lane that waits stays as it is. With `park`, one that does not go on is made to
/// wait for the `end` of this `while`. Any other stays awake, stands in the scope of the
/// `while` with the number of the pass as its iteration, and has failed if it had.
pub open spec fn passed(
    before: Lane,
    after: Lane,
    position: usize,
    name: Seq<char>,
    iteration: usize,
    park: bool,
) -> bool {
    &&& same_origin(after.env, before.env)
    &&& if before.parked is Some {
        after.parked == before.parked && after.failed == before.failed
    } else if park && !proceeds(before, name) {
        after.parked == Some(position) && after.failed == before.failed
    } else {
        &&& after.parked is None
        &&& after.failed == before.failed
        &&& after.env.map is Some
        &&& after.env.map->0.name@ == name
        &&& after.env.map->0.iteration == iteration
        &&& after.env.map->0.value is None
    }
}

/// The lanes in a pass of the `while` at a position: a lane that does not wait has the
/// number of the pass as its iteration; with `park`, one that does not go on is made to
/// wait for the `end`. The second part says whether a lane is awake after it.
fn pass(lanes: &Vec<Vec<Lane>>, position: usize, name: &str, iteration: usize, park: bool) -> (r: (
    Vec<Vec<Lane>>,
    bool,
))
    ensures
        r.0@.len() == lanes@.len(),
        widths(r.0@) == widths(lanes@),
        forall|n: int, m: int|
            0 <= n < lanes@.len() && 0 <= m < lanes@[n]@.len() ==> passed(
                lanes@[n]@[m],
                #[trigger] r.0@[n]@[m],
                position,
                name@,
                iteration,
                park,
            ),
        r.1 == exists|n: int, m: int|
            0 <= n < lanes@.len() && 0 <= m < lanes@[n]@.len() && (#[trigger] r.0@[n]@[m]).parked
                is None,
{
    let mut out: Vec<Vec<Lane>> = Vec::new();
    let mut any = false;
    let ghost mut at: (int, int) = (0, 0);
    let mut n: usize = 0;
    while n < lanes.len()
        invariant
            n <= lanes.len(),
            out@.len() == n,
            forall|k: int| 0 <= k < n ==> (#[trigger] out@[k])@.len() == lanes@[k]@.len(),
            forall|k: int, m: int|
                0 <= k < n && 0 <= m < lanes@[k]@.len() ==> passed(
                    lanes@[k]@[m],
                    #[trigger] out@[k]@[m],
                    position,
                    name@,
                    iteration,
                    park,
                ),
            any ==> 0 <= at.0 < n && 0 <= at.1 < lanes@[at.0]@.len() && out@[at.0]@[at.1].parked
                is None,
            !any ==> forall|k: int, m: int|
                0 <= k < n && 0 <= m < lanes@[k]@.len() ==> (#[trigger] out@[k]@[m]).parked
                    is Some,
        decreases lanes.len() - n,
    {
        let mut row: Vec<Lane> = Vec::new();
        let mut m: usize = 0;
        let ghost before = any;
        let ghost mut here: int = 0;
        while m < lanes[n].len()
            invariant
                n < lanes.len(),
                m <= lanes@[n as int]@.len(),
                row@.len() == m,
                forall|k: int|
                    0 <= k < m ==> passed(
                        lanes@[n as int]@[k],
                        #[trigger] row@[k],
                        position,
                        name@,
                        iteration,
                        park,
                    ),
                before ==> any,
                any && !before ==> 0 <= here < m && row@[here].parked is None,
                !any ==> forall|k: int| 0 <= k < m ==> (#[trigger] row@[k]).parked is Some,
            decreases lanes@[n as int]@.len() - m,
        {
            let lane = &lanes[n][m];
            if lane.parked.is_some() {
                row.push(lane.clone());
            } else if park && !goes_on(lane, name) {
                let copy = lane.clone();
                row.push(Lane { env: copy.env, failed: copy.failed, parked: Some(position) });
            } else {
                proof {
                    if !any {
                        here = m as int;
                    }
                }
                any = true;
                row.push(
                    Lane {
                        env: lane.env.with_scope(
                            lane.env.state.clone(),
                            Some(MapState { name: String::from_str(name), iteration, value: None }),
                        ),
                        failed: lane.failed,
                        parked: None,
                    },
                );
            }
            m += 1;
        }
        proof {
            if any && !before {
                at = (n as int, here);
            }
        }
        out.push(row);
        n += 1;
    }
    assert(widths(out@) =~= widths(lanes@));
    (out, any)
}

/// The lanes behind the `end` of a `while`: each has the state that it has come to, and
/// stands in the scope, and waits, as it did before the `while`.
fn leave(entered: &Vec<Vec<Lane>>, current: &Vec<Vec<Lane>>) -> (after: Vec<Vec<Lane>>)
    requires
        current@.len() == entered@.len(),
        widths(current@) == widths(entered@),
    ensures
        same_lanes(after@, entered@),
        forall|n: int, m: int|
            0 <= n < current@.len() && 0 <= m < current@[n]@.len() ==> same_origin(
                (#[trigger] after@[n]@[m]).env,
                current@[n]@[m].env,
            ) && after@[n]@[m].failed == current@[n]@[m].failed,
{
    let mut out: Vec<Vec<Lane>> = Vec::new();
    let mut n: usize = 0;
    while n < entered.len()
        invariant
            n <= entered.len(),
            forall|k: int, m: int|
                0 <= k < n && 0 <= m < current@[k]@.len() ==> same_origin(
                    (#[trigger] out@[k]@[m]).env,
                    current@[k]@[m].env,
                ) && out@[k]@[m].failed == current@[k]@[m].failed,
            current@.len() == entered@.len(),
            widths(current@) == widths(entered@),
            out@.len() == n,
            forall|k: int| 0 <= k < n ==> (#[trigger] out@[k])@.len() == entered@[k]@.len(),
            forall|k: int, m: int|
                0 <= k < n && 0 <= m < entered@[k]@.len() ==> (#[trigger] out@[k]@[m]).parked
                    == entered@[k]@[m].parked,
        decreases entered.len() - n,
    {
        let mut row: Vec<Lane> = Vec::new();
        let mut m: usize = 0;
        proof {
            assert(widths(current@)[n as int] == widths(entered@)[n as int]);
        }
        while m < entered[n].len()
            invariant
                n < entered.len(),
                n < current.len(),
                current@[n as int]@.len() == entered@[n as int]@.len(),
                m <= entered@[n as int]@.len(),
                row@.len() == m,
                forall|k: int|
                    0 <= k < m ==> (#[trigger] row@[k]).parked == entered@[n as int]@[k].parked,
                forall|k: int|
                    0 <= k < m ==> same_origin((#[trigger] row@[k]).env, current@[n as int]@[k].env)
                        && row@[k].failed == current@[n as int]@[k].failed,
            decreases entered@[n as int]@.len() - m,
        {
            let before = &entered[n][m];
            let now = &current[n][m];
            let map = match &before.env.map {
                Some(scope) => Some(scope.clone()),
                None => None,
            };
            row.push(
                Lane {
                    env: now.env.with_scope(now.env.state.clone(), map),
                    failed: now.failed,
                    parked: before.parked,
                },
            );
            m += 1;
        }
        out.push(row);
        n += 1;
    }
    assert(widths(out@) =~= widths(entered@));
    out
}

/// Whether the block at position `i` stands among the blocks from `from` up to `to` outside
/// the `while` scopes that open there: it is one of the blocks of that sequence, a `map` or
/// `reduce` among them, and neither a `while`, nor its `end`, nor anything in between.
pub open spec fn direct(types: Seq<BlockType>, closers: Seq<int>, from: int, to: int, i: int) -> bool
    decreases to - from,
{
    if from >= to {
        false
    } else if types[from] == BlockType::MapEach {
        let end = closers[from];
        i == from || i == end || (from < end < to && direct(types, closers, end + 1, to, i))
    } else if types[from] == BlockType::While {
        let end = closers[from];
        from < end < to && direct(types, closers, end + 1, to, i)
    } else {
        i == from || direct(types, closers, from + 1, to, i)
    }
}

/// Whether the block at position `w` is a `while` that opens its scope among the blocks
/// from `from` up to `to`, outside the scopes that open there.
pub open spec fn direct_loop(types: Seq<BlockType>, closers: Seq<int>, from: int, to: int, w: int) -> bool
    decreases to - from,
{
    if from >= to {
        false
    } else if types[from] == BlockType::While {
        let end = closers[from];
        w == from || (from < end < to && direct_loop(types, closers, end + 1, to, w))
    } else if types[from] == BlockType::MapEach {
        let end = closers[from];
        from < end < to && direct_loop(types, closers, end + 1, to, w)
    } else {
        direct_loop(types, closers, from + 1, to, w)
    }
}

/// Whether the block at position `p` is a `map` that opens its scope among the blocks from
/// `from` up to `to`, outside the scopes that open there.
pub open spec fn direct_map(types: Seq<BlockType>, closers: Seq<int>, from: int, to: int, p: int) -> bool
    decreases to - from,
{
    if from >= to {
        false
    } else if types[from] == BlockType::MapEach {
        let end = closers[from];
        p == from || (from < end < to && direct_map(types, closers, end + 1, to, p))
    } else if types[from] == BlockType::While {
        let end = closers[from];
        from < end < to && direct_map(types, closers, end + 1, to, p)
    } else {
        direct_map(types, closers, from + 1, to, p)
    }
}

/// Whether the block at position `i` stands in the scope of the `map` at position `p`,
/// outside the `while` scopes that open there.
pub open spec fn inside(types: Seq<BlockType>, closers: Seq<int>, p: int, i: int) -> bool {
    direct(types, closers, p + 1, closers[p], i)
}

/// What a run of blocks guarantees of its `map` scopes where it did not end early and each
/// input had come with one lane: the trace of a block in the scope of a `map` has grown, for
/// each input, by as many executions as the `map` has opened lanes for it.
pub open spec fn spread(
    after: Record,
    before: Record,
    types: Seq<BlockType>,
    closers: Seq<int>,
    from: int,
    to: int,
    lanes: Seq<Vec<Lane>>,
) -> bool {
    after.fatal is None && single(lanes) ==> forall|p: int, i: int, n: int|
        from <= p < to && 0 <= n < lanes.len() && #[trigger] direct_map(
            types,
            closers,
            from,
            to,
            p,
        ) && #[trigger] inside(types, closers, p, i) ==> (#[trigger] trace_heights(
            after.traces@,
            i,
        )[n]) == trace_heights(before.traces@, i)[n] + fanout(
            after.traces@[p].executions@[n].deep_view(),
        )
}

/// Whether a value is what a `reduce` gives for a lane that opened `count` lanes: an array
/// of as many items, or nothing where an execution had failed for the lane.
pub open spec fn gathered_value(value: Option<Json>, failed: bool, count: nat) -> bool {
    if failed {
        value is None
    } else {
        value is Some && value->0 is Array && value->0->Array_0.len() == count
    }
}

/// What a run of blocks guarantees of its `reduce` blocks where it did not end early and
/// each input had come with one lane: for each input, the `reduce` of a `map` gives an array
/// of as many items as the `map` has opened lanes, and nothing where the `map` gave nothing.
pub open spec fn folded(
    after: Record,
    types: Seq<BlockType>,
    closers: Seq<int>,
    from: int,
    to: int,
    lanes: Seq<Vec<Lane>>,
) -> bool {
    after.fatal is None && single(lanes) ==> forall|p: int, n: int|
        from <= p < to && 0 <= n < lanes.len() && #[trigger] direct_map(
            types,
            closers,
            from,
            to,
            p,
        ) ==> gathered_value(
            valued(#[trigger] after.traces@[closers[p]].executions@[n].deep_view()),
            valued(after.traces@[p].executions@[n].deep_view()) is None,
            fanout(after.traces@[p].executions@[n].deep_view()),
        )
}

/// A `map` that opens its scope among the blocks from `from` up to `to` has its position
/// there, and its `reduce` behind it, with a well-formed sequence in between.
proof fn lemma_direct_map_within(
    types: Seq<BlockType>,
    closers: Seq<int>,
    from: int,
    to: int,
    p: int,
)
    requires
        0 <= from,
        to <= types.len(),
        well_scoped(types, closers, from, to),
        direct_map(types, closers, from, to, p),
    ensures
        from <= p < closers[p] < to,
        types[p] == BlockType::MapEach,
        well_scoped(types, closers, p + 1, closers[p]),
    decreases to - from,
{
    if from < to {
        if types[from] == BlockType::MapEach {
            let end = closers[from];
            if p != from {
                lemma_direct_map_within(types, closers, end + 1, to, p);
            }
        } else if types[from] == BlockType::While {
            let end = closers[from];
            lemma_direct_map_within(types, closers, end + 1, to, p);
        } else {
            assert(closer_of(types[from]) is None);
            lemma_direct_map_within(types, closers, from + 1, to, p);
        }
    }
}

proof fn lemma_single(after: Seq<Vec<Lane>>, before: Seq<Vec<Lane>>)
    requires
        same_lanes(after, before),
        single(before),
    ensures
        single(after),
{
    assert forall|n: int| 0 <= n < after.len() implies (#[trigger] after[n])@.len() == 1
        && after[n]@[0].parked is None by {
        assert(widths(after)[n] == widths(before)[n]);
        assert(before[n]@.len() == 1);
        assert(after[n]@[0].parked == before[n]@[0].parked);
    }
}

/// What a run of blocks guarantees of its loops where it did not end early: for each input
/// that had come with one lane that did not wait, the `while` of each loop that opens its
/// scope there was executed, each time but the last it gave `true`, and the last time it did
/// not.
pub open spec fn turned(
    after: Record,
    before: Record,
    types: Seq<BlockType>,
    closers: Seq<int>,
    from: int,
    to: int,
    lanes: Seq<Vec<Lane>>,
) -> bool {
    after.fatal is None ==> forall|w: int, n: int|
        from <= w < to && 0 <= n < lanes.len() && lanes[n]@.len() == 1 && lanes[n]@[0].parked
            is None && #[trigger] direct_loop(types, closers, from, to, w) ==> spun(
            #[trigger] trace_row(after, w, n),
            trace_row(before, w, n).len() as int,
        )
}

/// Lanes that are the same as an input's one lane that does not wait are one lane that does
/// not wait.
proof fn lemma_one_awake(after: Seq<Vec<Lane>>, before: Seq<Vec<Lane>>, n: int)
    requires
        same_lanes(after, before),
        0 <= n < before.len(),
        before[n]@.len() == 1,
        before[n]@[0].parked is None,
    ensures
        after[n]@.len() == 1,
        after[n]@[0].parked is None,
{
    assert(widths(after)[n] == after[n]@.len());
    assert(widths(before)[n] == before[n]@.len());
    assert(after[n]@[0].parked == before[n]@[0].parked);
}

/// What a run of blocks guarantees of its loops, whatever the executions give: the trace of
/// the `end` of each `while` that opens its scope there has grown, input by input, by no
/// more than `max_iterations` executions for each lane.
pub open spec fn capped(
    after: Record,
    before: Record,
    blocks: Seq<crate::app::AppBlock>,
    closers: Seq<int>,
    from: int,
    to: int,
    lanes: Seq<Vec<Lane>>,
) -> bool {
    forall|w: int, n: int|
        from <= w < to && 0 <= n < lanes.len() && #[trigger] direct_loop(
            types_of(blocks),
            closers,
            from,
            to,
            w,
        ) ==> (#[trigger] trace_heights(after.traces@, closers[w])[n]) <= trace_heights(
            before.traces@,
            closers[w],
        )[n] + blocks[w].max_iterations * lanes[n]@.len()
}

/// A `while` that opens its scope among the blocks from `from` up to `to` has its position
/// there, and its `end` behind it.
proof fn lemma_direct_loop_within(
    types: Seq<BlockType>,
    closers: Seq<int>,
    from: int,
    to: int,
    w: int,
)
    requires
        0 <= from,
        to <= types.len(),
        well_scoped(types, closers, from, to),
        direct_loop(types, closers, from, to, w),
    ensures
        from <= w < closers[w] < to,
        types[w] == BlockType::While,
    decreases to - from,
{
    if from < to {
        if types[from] == BlockType::While {
            let end = closers[from];
            if w != from {
                lemma_direct_loop_within(types, closers, end + 1, to, w);
            }
        } else if types[from] == BlockType::MapEach {
            let end = closers[from];
            lemma_direct_loop_within(types, closers, end + 1, to, w);
        } else {
            assert(closer_of(types[from]) is None);
            lemma_direct_loop_within(types, closers, from + 1, to, w);
        }
    }
}

/// What a run of blocks guarantees where it did not end early and no lane waited: the trace
/// of each block that stands outside the `while` scopes has grown, input by input, by one
/// execution for each lane.
pub open spec fn grown(
    after: Record,
    before: Record,
    types: Seq<BlockType>,
    closers: Seq<int>,
    from: int,
    to: int,
    lanes: Seq<Vec<Lane>>,
) -> bool {
    after.fatal is None && all_awake(lanes) ==> forall|i: int|
        from <= i < to && #[trigger] direct(types, closers, from, to, i) ==> trace_heights(
            after.traces@,
            i,
        ) == sums(trace_heights(before.traces@, i), widths(lanes))
}

proof fn lemma_same_lanes(a: Seq<Vec<Lane>>, b: Seq<Vec<Lane>>, c: Seq<Vec<Lane>>)
    requires
        same_lanes(a, b),
        same_lanes(b, c),
    ensures
        same_lanes(a, c),
        all_awake(c) ==> all_awake(b) && all_awake(a),
{
    assert forall|n: int, m: int| 0 <= n < c.len() && 0 <= m < c[n]@.len() implies (
    #[trigger] a[n]@[m]).parked == c[n]@[m].parked && b[n]@[m].parked == c[n]@[m].parked by {
        assert(widths(b)[n] == widths(c)[n]);
        assert(b[n]@[m].parked == c[n]@[m].parked);
        assert(a[n]@[m].parked == b[n]@[m].parked);
    }
    assert(widths(a) =~= widths(c));
    if all_awake(c) {
        assert forall|n: int, m: int| 0 <= n < b.len() && 0 <= m < b[n]@.len() implies (
        #[trigger] b[n]@[m]).parked is None by {
            assert(widths(b)[n] == widths(c)[n]);
            assert(b[n]@[m].parked == c[n]@[m].parked);
        }
        assert forall|n: int, m: int| 0 <= n < a.len() && 0 <= m < a[n]@.len() implies (
        #[trigger] a[n]@[m]).parked is None by {
            assert(widths(a)[n] == widths(c)[n]);
            assert(a[n]@[m].parked == c[n]@[m].parked);
        }
    }
}

/// A block that stands among the blocks from `from` up to `to` has its position there.
proof fn lemma_direct_within(types: Seq<BlockType>, closers: Seq<int>, from: int, to: int, i: int)
    requires
        0 <= from,
        to <= types.len(),
        well_scoped(types, closers, from, to),
        direct(types, closers, from, to, i),
    ensures
        from <= i < to,
    decreases to - from,
{
    if from < to {
        if types[from] == BlockType::MapEach {
            let end = closers[from];
            if i != from && i != end {
                lemma_direct_within(types, closers, end + 1, to, i);
            }
        } else if types[from] == BlockType::While {
            let end = closers[from];
            lemma_direct_within(types, closers, end + 1, to, i);
        } else if i != from {
            assert(closer_of(types[from]) is None);
            lemma_direct_within(types, closers, from + 1, to, i);
        }
    }
}

proof fn lemma_same_lanes_refl(a: Seq<Vec<Lane>>)
    ensures
        same_lanes(a, a),
{
}

/// Closes the scope of the `map` at `from` with the `reduce` at `end`.
fn close_map<E: Executor>(
    app: &App,
    end: usize,
    parents: Vec<Vec<Lane>>,
    expansion: &Expansion,
    record: &mut Record,
    executor: &mut E,
    Ghost(origin): Ghost<Origin>,
) -> (after: Vec<Vec<Lane>>)
    requires
        0 < end < app.blocks().len(),
        rooted(parents@, origin),
        excused(parents@, *old(record)),
        shaped(*old(record), app.blocks().len(), parents@.len() as nat),
        counted(*expansion),
        expansion.counts@.len() == parents@.len(),
        forall|n: int|
            0 <= n < parents@.len() ==> (#[trigger] expansion.counts@[n])@.len()
                == parents@[n]@.len(),
        upheld::<E>(*old(record), app.blocks(), origin),
        app.blocks()[end as int].block_type == BlockType::Reduce,
    ensures
        upheld::<E>(*final(record), app.blocks(), origin),
        rooted(after@, origin),
        excused(after@, *final(record)),
        extends(*final(record), *old(record)),
        old(record).fatal is Some ==> final(record).fatal == old(record).fatal,
        same_lanes(after@, parents@),
        same_outside(*final(record), *old(record), end as int, end + 1, parents@.len() as nat),
        all_awake(parents@) ==> trace_heights(final(record).traces@, end as int) == sums(
            trace_heights(old(record).traces@, end as int),
            widths(parents@),
        ),
        single(parents@) ==> forall|n: int|
            0 <= n < parents@.len() ==> gathered_value(
                valued(#[trigger] final(record).traces@[end as int].executions@[n].deep_view()),
                parents@[n]@[0].failed,
                expansion.children@[n]@.len(),
            ),
{
    let name = app.block(end).name.as_str();
    let target = app.block(end - 1).name.as_str();
    let v = reduce(name, target, &parents, expansion);
    let ghost before = *record;
    note(record, end, &v.rows);
    let ghost noted = *record;
    proof {
        assert(types_of(app.blocks())[end as int] == BlockType::Reduce);
        assert(before.traces@[end as int].block_type == BlockType::Reduce);
        lemma_rooted_kept(v.lanes@, parents@, origin);
        assert forall|i: int, n: int, k: int|
            0 <= i < record.traces@.len() && 0 <= n < record.traces@[i].executions@.len() && 0 <= k
                < record.traces@[i].executions@[n]@.len() implies accounted::<E>(
            record.traces@[i].block_type,
            i as usize,
            n,
            origin,
            before.fatal is None,
            early(app.blocks(), i, k),
            (#[trigger] record.traces@[i].executions@[n]@[k]).deep_view(),
        ) by {
            if i != end {
                assert(record.traces@[i] == before.traces@[i]);
            } else {
                let had = before.traces@[i].executions@[n];
                let row = record.traces@[i].executions@[n];
                assert(row.deep_view() == had.deep_view() + v.rows@[n].deep_view());
                assert(row.deep_view()[k] == row@[k].deep_view());
                if k < had@.len() {
                    assert(had.deep_view()[k] == had@[k].deep_view());
                    assert(accounted::<E>(
                        before.traces@[i].block_type,
                        i as usize,
                        n,
                        origin,
                        before.fatal is None,
                        early(app.blocks(), i, k),
                        had@[k].deep_view(),
                    ));
                } else {
                    let e = v.rows@[n]@[k - had@.len()];
                    assert(v.rows@[n].deep_view()[k - had@.len()] == e.deep_view());
                    assert(own(BlockType::Reduce, e.deep_view()));
                }
            }
        }
        assert(tallied(*record)) by {
            lemma_counts_joined(
                record.traces@[end as int].executions@,
                before.traces@[end as int].executions@,
                v.rows@,
            );
            assert forall|i: int| 0 <= i < record.blocks@.len() implies (
            #[trigger] record.blocks@[i]).success_count == saturated(
                successes(record.traces@[i].executions@) as int,
            ) && record.blocks@[i].error_count == saturated(
                errors(record.traces@[i].executions@) as int,
            ) && (record.blocks@[i].status != Status::Running ==> (record.blocks@[i].status
                == Status::Errored) == (record.blocks@[i].error_count > 0)) by {
                if i != end {
                    assert(record.traces@[i] == before.traces@[i]);
                    assert(record.blocks@[i] == before.blocks@[i]);
                }
            }
        }
    }
    proof {
        if single(parents@) {
            assert forall|n: int| 0 <= n < parents@.len() implies gathered_value(
                valued(#[trigger] record.traces@[end as int].executions@[n].deep_view()),
                parents@[n]@[0].failed,
                expansion.children@[n]@.len(),
            ) by {
                assert(v.rows@[n].deep_view().last() == v.rows@[n]@[0].deep_view());
                assert(gathered(
                    v.rows@[n]@[0],
                    parents@[n]@[0].failed,
                    expansion.children@[n]@.len(),
                ));
            }
        }
    }
    if record.fatal.is_none() {
        let said = executor.settled(end, &v.rows);
        match said {
            Ok(_) => {},
            Err(message) => {
                record.fatal = Some(message);
            },
        }
    }
    proof {
        assert forall|i: int, n: int, k: int|
            0 <= i < record.traces@.len() && 0 <= n < record.traces@[i].executions@.len() && 0 <= k
                < record.traces@[i].executions@[n]@.len() implies accounted::<E>(
            record.traces@[i].block_type,
            i as usize,
            n,
            origin,
            record.fatal is None,
            early(app.blocks(), i, k),
            (#[trigger] record.traces@[i].executions@[n]@[k]).deep_view(),
        ) by {
            assert(record.traces@[i].executions@[n]@[k] == noted.traces@[i].executions@[n]@[k]);
            lemma_accounted_ended::<E>(
                noted.traces@[i].block_type,
                i as usize,
                n,
                origin,
                before.fatal is None,
                early(app.blocks(), i, k),
                noted.traces@[i].executions@[n]@[k].deep_view(),
            );
        }
        assert(extends(*record, before)) by {
            assert forall|i: int, n: int|
                0 <= i < before.traces@.len() && 0 <= n < before.traces@[i].executions@.len() implies (
            #[trigger] record.traces@[i].executions@[n])@.len()
                >= before.traces@[i].executions@[n]@.len() && forall|k: int|
                0 <= k < before.traces@[i].executions@[n]@.len() ==> (
                #[trigger] record.traces@[i].executions@[n]@[k]).deep_view()
                    == before.traces@[i].executions@[n]@[k].deep_view() by {
                if i == end {
                    let had = before.traces@[i].executions@[n];
                    let row = record.traces@[i].executions@[n];
                    assert(row.deep_view() == had.deep_view() + v.rows@[n].deep_view());
                    assert(row.deep_view().len() == row@.len());
                    assert(had.deep_view().len() == had@.len());
                    assert forall|k: int| 0 <= k < had@.len() implies (#[trigger] row@[k]).deep_view()
                        == had@[k].deep_view() by {
                        assert(row.deep_view()[k] == row@[k].deep_view());
                        assert(had.deep_view()[k] == had@[k].deep_view());
                    }
                } else {
                    assert(record.traces@[i] == before.traces@[i]);
                }
            }
        }
        lemma_excused_kept(parents@, before, *record);
        lemma_excused_same(v.lanes@, parents@, *record);
        if record.fatal is None {
            assert forall|i: int, n: int, k: int|
                0 <= i < record.traces@.len() && 0 <= n < record.traces@[i].executions@.len() && 0
                    <= k < record.traces@[i].executions@[n]@.len() && blank(
                    (#[trigger] record.traces@[i].executions@[n]@[k]).deep_view(),
                ) implies errored_for(*record, n) by {
                let had = before.traces@[i].executions@[n];
                let row = record.traces@[i].executions@[n];
                if i != end {
                    assert(record.traces@[i] == before.traces@[i]);
                    assert(blank(before.traces@[i].executions@[n]@[k].deep_view()));
                    lemma_errored_kept(*record, before, n);
                } else if k < had@.len() {
                    assert(row@[k].deep_view() == had@[k].deep_view());
                    assert(blank(before.traces@[i].executions@[n]@[k].deep_view()));
                    lemma_errored_kept(*record, before, n);
                } else {
                    assert(row.deep_view() == had.deep_view() + v.rows@[n].deep_view());
                    assert(row.deep_view().len() == row@.len());
                    assert(had.deep_view().len() == had@.len());
                    assert(row.deep_view()[k] == row@[k].deep_view());
                    assert(v.rows@[n].deep_view()[k - had@.len()] == v.rows@[n]@[k
                        - had@.len()].deep_view());
                    assert(blank(v.rows@[n]@[k - had@.len()].deep_view()));
                    assert(some_failed(parents@[n]@));
                    let w = choose|w: int|
                        0 <= w < parents@[n]@.len() && (#[trigger] parents@[n]@[w]).failed;
                    assert(errored_for(before, n));
                    lemma_errored_kept(*record, before, n);
                }
            }
        }
    }
    v.lanes
}

/// Runs the blocks from `from` up to `to` for the lanes that have come to them.
fn run_range<E: Executor>(
    app: &App,
    from: usize,
    to: usize,
    lanes: Vec<Vec<Lane>>,
    record: &mut Record,
    executor: &mut E,
    Ghost(origin): Ghost<Origin>,
) -> (after: Vec<Vec<Lane>>)
    requires
        rooted(lanes@, origin),
        excused(lanes@, *old(record)),
        from <= to <= app.blocks().len(),
        app.closers().len() == app.blocks().len(),
        well_scoped(types_of(app.blocks()), app.closers(), from as int, to as int),
        shaped(*old(record), app.blocks().len(), lanes@.len() as nat),
        upheld::<E>(*old(record), app.blocks(), origin),
    ensures
        upheld::<E>(*final(record), app.blocks(), origin),
        rooted(after@, origin),
        excused(after@, *final(record)),
        extends(*final(record), *old(record)),
        old(record).fatal is Some ==> final(record).fatal == old(record).fatal,
        same_lanes(after@, lanes@),
        same_outside(*final(record), *old(record), from as int, to as int, lanes@.len() as nat),
        grown(
            *final(record),
            *old(record),
            types_of(app.blocks()),
            app.closers(),
            from as int,
            to as int,
            lanes@,
        ),
        capped(
            *final(record),
            *old(record),
            app.blocks(),
            app.closers(),
            from as int,
            to as int,
            lanes@,
        ),
        turned(
            *final(record),
            *old(record),
            types_of(app.blocks()),
            app.closers(),
            from as int,
            to as int,
            lanes@,
        ),
        spread(
            *final(record),
            *old(record),
            types_of(app.blocks()),
            app.closers(),
            from as int,
            to as int,
            lanes@,
        ),
        folded(
            *final(record),
            types_of(app.blocks()),
            app.closers(),
            from as int,
            to as int,
            lanes@,
        ),
    decreases to - from,
{
    if from >= to || record.fatal.is_some() {
        proof {
            assert forall|w: int, n: int|
                from <= w < to && 0 <= n < lanes@.len() && #[trigger] direct_loop(
                    types_of(app.blocks()),
                    app.closers(),
                    from as int,
                    to as int,
                    w,
                ) implies (#[trigger] trace_heights(record.traces@, app.closers()[w])[n])
                <= trace_heights(record.traces@, app.closers()[w])[n]
                + app.blocks()[w].max_iterations * lanes@[n]@.len() by {
                assert(app.blocks()[w].max_iterations * lanes@[n]@.len() >= 0) by (nonlinear_arith)
                    requires
                        app.blocks()[w].max_iterations >= 0,
                        lanes@[n]@.len() >= 0,
                ;
            }
        }
        return lanes;
    }
    let ghost types = types_of(app.blocks());
    let ghost closers = app.closers();
    let ghost entered = lanes@;
    let ghost before = *record;
    let kind = app.block(from).block_type;
    assert(types[from as int] == kind);
    match kind {
        BlockType::MapEach => {
            let end = app.closer(from);
            let parents = visit(app, from, false, lanes, record, executor, Ghost(origin));
            let ghost visited = *record;
            let born = expand(app.block(from).name.as_str(), &parents);
            let ghost opened = born.children@;
            proof {
                assert(born.children@.len() == born.counts@.len());
                lemma_rooted_from(born.children@, parents@, origin);
                assert(excused(born.children@, *record));
            }
            let children = run_range(
                app,
                from + 1,
                end,
                born.children,
                record,
                executor,
                Ghost(origin),
            );
            let ghost bodied = *record;
            let expansion = Expansion { children, counts: born.counts };
            proof {
                assert forall|n: int| 0 <= n < expansion.counts@.len() implies (
                #[trigger] expansion.children@[n])@.len() == total(expansion.counts@[n]@) by {
                    assert(widths(expansion.children@)[n] == widths(opened)[n]);
                }
            }
            proof {
                lemma_excused_kept(parents@, visited, *record);
            }
            let closed = close_map(app, end, parents, &expansion, record, executor, Ghost(origin));
            let ghost reduced = *record;
            let after = run_range(app, end + 1, to, closed, record, executor, Ghost(origin));
            proof {
                lemma_extends(bodied, visited, before);
                lemma_extends(reduced, bodied, before);
                lemma_extends(*record, reduced, before);
                lemma_same_lanes_refl(entered);
                lemma_same_lanes(parents@, entered, entered);
                lemma_same_lanes(closed@, parents@, entered);
                lemma_same_lanes(after@, closed@, entered);
                assert forall|w: int, n: int|
                    from <= w < to && 0 <= n < entered.len() && #[trigger] direct_loop(
                        types,
                        closers,
                        from as int,
                        to as int,
                        w,
                    ) implies (#[trigger] trace_heights(record.traces@, closers[w])[n])
                    <= trace_heights(before.traces@, closers[w])[n] + app.blocks()[w].max_iterations
                    * entered[n]@.len() by {
                    assert(direct_loop(types, closers, end + 1, to as int, w));
                    lemma_direct_loop_within(types, closers, end + 1, to as int, w);
                    assert(reduced.traces@[closers[w]] == before.traces@[closers[w]]);
                    assert(trace_heights(reduced.traces@, closers[w]) == trace_heights(
                        before.traces@,
                        closers[w],
                    ));
                    assert(widths(closed@)[n] == widths(entered)[n]);
                }
                if record.fatal is None && single(entered) {
                    lemma_single(parents@, entered);
                    lemma_single(closed@, entered);
                    assert forall|p: int, n: int|
                        from <= p < to && 0 <= n < entered.len() && #[trigger] direct_map(
                            types,
                            closers,
                            from as int,
                            to as int,
                            p,
                        ) implies gathered_value(
                        valued(#[trigger] record.traces@[closers[p]].executions@[n].deep_view()),
                        valued(record.traces@[p].executions@[n].deep_view()) is None,
                        fanout(record.traces@[p].executions@[n].deep_view()),
                    ) by {
                        if p == from {
                            assert(closers[p] == end);
                            assert(record.traces@[from as int] == visited.traces@[from as int]);
                            assert(record.traces@[end as int] == reduced.traces@[end as int]);
                            assert(widths(expansion.children@)[n] == widths(opened)[n]);
                            assert(expansion.children@[n]@.len() == opened[n]@.len());
                            assert(opened[n]@.len() == opened_by(
                                parents@[n]@[0],
                                app.blocks()[from as int].name@,
                            ).len());
                            assert(gathered_value(
                                valued(reduced.traces@[end as int].executions@[n].deep_view()),
                                parents@[n]@[0].failed,
                                expansion.children@[n]@.len(),
                            ));
                            assert(parents@[n]@[0].failed == (valued(
                                visited.traces@[from as int].executions@[n].deep_view(),
                            ) is None));
                        } else {
                            assert(direct_map(types, closers, end + 1, to as int, p));
                            lemma_direct_map_within(types, closers, end + 1, to as int, p);
                        }
                    }
                    lemma_same_lanes_refl(opened);
                    assert forall|p: int, i: int, n: int|
                        from <= p < to && 0 <= n < entered.len() && #[trigger] direct_map(
                            types,
                            closers,
                            from as int,
                            to as int,
                            p,
                        ) && #[trigger] inside(types, closers, p, i) implies (
                    #[trigger] trace_heights(record.traces@, i)[n]) == trace_heights(
                        before.traces@,
                        i,
                    )[n] + fanout(record.traces@[p].executions@[n].deep_view()) by {
                        if p == from {
                            lemma_direct_within(types, closers, from + 1, end as int, i);
                            assert(record.traces@[from as int] == visited.traces@[from as int]);
                            assert(record.traces@[i] == bodied.traces@[i]);
                            assert(trace_heights(record.traces@, i) == trace_heights(
                                bodied.traces@,
                                i,
                            ));
                            assert(visited.traces@[i] == before.traces@[i]);
                            assert(trace_heights(visited.traces@, i) == trace_heights(
                                before.traces@,
                                i,
                            ));
                            assert(trace_heights(bodied.traces@, i) == sums(
                                trace_heights(visited.traces@, i),
                                widths(opened),
                            ));
                            assert(widths(opened)[n] == opened[n]@.len());
                        } else {
                            assert(direct_map(types, closers, end + 1, to as int, p));
                            lemma_direct_map_within(types, closers, end + 1, to as int, p);
                            lemma_direct_within(types, closers, p + 1, closers[p], i);
                            assert(reduced.traces@[i] == before.traces@[i]);
                            assert(trace_heights(reduced.traces@, i) == trace_heights(
                                before.traces@,
                                i,
                            ));
                        }
                    }
                }
                if record.fatal is None && all_awake(entered) {
                    assert(all_awake(parents@));
                    assert(all_awake(closed@));
                    assert(widths(closed@) == widths(entered));
                    assert forall|i: int|
                        from <= i < to && #[trigger] direct(
                            types,
                            closers,
                            from as int,
                            to as int,
                            i,
                        ) implies trace_heights(record.traces@, i) == sums(
                        trace_heights(before.traces@, i),
                        widths(entered),
                    ) by {
                        if i == from {
                            assert(record.traces@[i] == visited.traces@[i]);
                        } else if i == end {
                            assert(record.traces@[i] == reduced.traces@[i]);
                            assert(bodied.traces@[i] == before.traces@[i]);
                        } else {
                            assert(direct(types, closers, end + 1, to as int, i));
                            lemma_direct_within(types, closers, end + 1, to as int, i);
                            assert(reduced.traces@[i] == before.traces@[i]);
                        }
                    }
                }
            }
            proof {
                if record.fatal is None {
                    assert forall|w: int, n: int|
                        from <= w < to && 0 <= n < entered.len() && entered[n]@.len() == 1
                            && entered[n]@[0].parked is None && #[trigger] direct_loop(
                            types,
                            closers,
                            from as int,
                            to as int,
                            w,
                        ) implies spun(
                        #[trigger] trace_row(*record, w, n),
                        trace_row(before, w, n).len() as int,
                    ) by {
                        assert(direct_loop(types, closers, end + 1, to as int, w));
                        lemma_direct_loop_within(types, closers, end + 1, to as int, w);
                        lemma_same_lanes(closed@, parents@, entered);
                        lemma_one_awake(closed@, entered, n);
                        assert(visited.traces@[w] == before.traces@[w]);
                        assert(bodied.traces@[w] == visited.traces@[w]);
                        assert(reduced.traces@[w] == bodied.traces@[w]);
                    }
                }
            }
            after
        },
        BlockType::While => {
            let end = app.closer(from);
            let left = loop_scope(app, from, end, lanes, record, executor, Ghost(origin));
            let ghost looped = *record;
            let after = run_range(app, end + 1, to, left, record, executor, Ghost(origin));
            proof {
                lemma_extends(*record, looped, before);
                lemma_same_lanes_refl(entered);
                lemma_same_lanes(left@, entered, entered);
                lemma_same_lanes(after@, left@, entered);
                assert forall|w: int, n: int|
                    from <= w < to && 0 <= n < entered.len() && #[trigger] direct_loop(
                        types,
                        closers,
                        from as int,
                        to as int,
                        w,
                    ) implies (#[trigger] trace_heights(record.traces@, closers[w])[n])
                    <= trace_heights(before.traces@, closers[w])[n] + app.blocks()[w].max_iterations
                    * entered[n]@.len() by {
                    if w == from {
                        assert(record.traces@[end as int] == looped.traces@[end as int]);
                        assert(trace_heights(record.traces@, end as int) == trace_heights(
                            looped.traces@,
                            end as int,
                        ));
                    } else {
                        assert(direct_loop(types, closers, end + 1, to as int, w));
                        lemma_direct_loop_within(types, closers, end + 1, to as int, w);
                        assert(looped.traces@[closers[w]] == before.traces@[closers[w]]);
                        assert(trace_heights(looped.traces@, closers[w]) == trace_heights(
                            before.traces@,
                            closers[w],
                        ));
                        assert(widths(left@)[n] == widths(entered)[n]);
                    }
                }
                if record.fatal is None && single(entered) {
                    lemma_single(left@, entered);
                    assert forall|p: int, n: int|
                        from <= p < to && 0 <= n < entered.len() && #[trigger] direct_map(
                            types,
                            closers,
                            from as int,
                            to as int,
                            p,
                        ) implies gathered_value(
                        valued(#[trigger] record.traces@[closers[p]].executions@[n].deep_view()),
                        valued(record.traces@[p].executions@[n].deep_view()) is None,
                        fanout(record.traces@[p].executions@[n].deep_view()),
                    ) by {
                        assert(direct_map(types, closers, end + 1, to as int, p));
                        lemma_direct_map_within(types, closers, end + 1, to as int, p);
                    }
                    assert forall|p: int, i: int, n: int|
                        from <= p < to && 0 <= n < entered.len() && #[trigger] direct_map(
                            types,
                            closers,
                            from as int,
                            to as int,
                            p,
                        ) && #[trigger] inside(types, closers, p, i) implies (
                    #[trigger] trace_heights(record.traces@, i)[n]) == trace_heights(
                        before.traces@,
                        i,
                    )[n] + fanout(record.traces@[p].executions@[n].deep_view()) by {
                        assert(direct_map(types, closers, end + 1, to as int, p));
                        lemma_direct_map_within(types, closers, end + 1, to as int, p);
                        lemma_direct_within(types, closers, p + 1, closers[p], i);
                        assert(looped.traces@[i] == before.traces@[i]);
                        assert(trace_heights(looped.traces@, i) == trace_heights(
                            before.traces@,
                            i,
                        ));
                    }
                }
                if record.fatal is None && all_awake(entered) {
                    assert(all_awake(left@));
                    assert forall|i: int|
                        from <= i < to && #[trigger] direct(
                            types,
                            closers,
                            from as int,
                            to as int,
                            i,
                        ) implies trace_heights(record.traces@, i) == sums(
                        trace_heights(before.traces@, i),
                        widths(entered),
                    ) by {
                        assert(direct(types, closers, end + 1, to as int, i));
                        lemma_direct_within(types, closers, end + 1, to as int, i);
                        assert(looped.traces@[i] == before.traces@[i]);
                    }
                }
            }
            proof {
                if record.fatal is None {
                    assert forall|w: int, n: int|
                        from <= w < to && 0 <= n < entered.len() && entered[n]@.len() == 1
                            && entered[n]@[0].parked is None && #[trigger] direct_loop(
                            types,
                            closers,
                            from as int,
                            to as int,
                            w,
                        ) implies spun(
                        #[trigger] trace_row(*record, w, n),
                        trace_row(before, w, n).len() as int,
                    ) by {
                        if w == from {
                            assert(looped.fatal is None);
                            assert(record.traces@[w] == looped.traces@[w]);
                        } else {
                            assert(direct_loop(types, closers, end + 1, to as int, w));
                            lemma_direct_loop_within(types, closers, end + 1, to as int, w);
                            lemma_one_awake(left@, entered, n);
                            assert(looped.traces@[w] == before.traces@[w]);
                        }
                    }
                }
            }
            after
        },
        _ => {
            let local = match kind {
                BlockType::Root => true,
                _ => false,
            };
            let visited = visit(app, from, local, lanes, record, executor, Ghost(origin));
            let ghost seen = *record;
            let after = run_range(app, from + 1, to, visited, record, executor, Ghost(origin));
            proof {
                lemma_extends(*record, seen, before);
                lemma_same_lanes_refl(entered);
                lemma_same_lanes(visited@, entered, entered);
                lemma_same_lanes(after@, visited@, entered);
                assert forall|w: int, n: int|
                    from <= w < to && 0 <= n < entered.len() && #[trigger] direct_loop(
                        types,
                        closers,
                        from as int,
                        to as int,
                        w,
                    ) implies (#[trigger] trace_heights(record.traces@, closers[w])[n])
                    <= trace_heights(before.traces@, closers[w])[n] + app.blocks()[w].max_iterations
                    * entered[n]@.len() by {
                    assert(direct_loop(types, closers, from + 1, to as int, w));
                    lemma_direct_loop_within(types, closers, from + 1, to as int, w);
                    assert(seen.traces@[closers[w]] == before.traces@[closers[w]]);
                    assert(trace_heights(seen.traces@, closers[w]) == trace_heights(
                        before.traces@,
                        closers[w],
                    ));
                    assert(widths(visited@)[n] == widths(entered)[n]);
                }
                if record.fatal is None && single(entered) {
                    lemma_single(visited@, entered);
                    assert forall|p: int, n: int|
                        from <= p < to && 0 <= n < entered.len() && #[trigger] direct_map(
                            types,
                            closers,
                            from as int,
                            to as int,
                            p,
                        ) implies gathered_value(
                        valued(#[trigger] record.traces@[closers[p]].executions@[n].deep_view()),
                        valued(record.traces@[p].executions@[n].deep_view()) is None,
                        fanout(record.traces@[p].executions@[n].deep_view()),
                    ) by {
                        assert(direct_map(types, closers, from + 1, to as int, p));
                        lemma_direct_map_within(types, closers, from + 1, to as int, p);
                    }
                    assert forall|p: int, i: int, n: int|
                        from <= p < to && 0 <= n < entered.len() && #[trigger] direct_map(
                            types,
                            closers,
                            from as int,
                            to as int,
                            p,
                        ) && #[trigger] inside(types, closers, p, i) implies (
                    #[trigger] trace_heights(record.traces@, i)[n]) == trace_heights(
                        before.traces@,
                        i,
                    )[n] + fanout(record.traces@[p].executions@[n].deep_view()) by {
                        assert(direct_map(types, closers, from + 1, to as int, p));
                        lemma_direct_map_within(types, closers, from + 1, to as int, p);
                        lemma_direct_within(types, closers, p + 1, closers[p], i);
                        assert(seen.traces@[i] == before.traces@[i]);
                        assert(trace_heights(seen.traces@, i) == trace_heights(
                            before.traces@,
                            i,
                        ));
                    }
                }
                if record.fatal is None && all_awake(entered) {
                    assert(all_awake(visited@));
                    assert forall|i: int|
                        from <= i < to && #[trigger] direct(
                            types,
                            closers,
                            from as int,
                            to as int,
                            i,
                        ) implies trace_heights(record.traces@, i) == sums(
                        trace_heights(before.traces@, i),
                        widths(entered),
                    ) by {
                        if i == from {
                            assert(record.traces@[i] == seen.traces@[i]);
                        } else {
                            assert(direct(types, closers, from + 1, to as int, i));
                            lemma_direct_within(types, closers, from + 1, to as int, i);
                            assert(seen.traces@[i] == before.traces@[i]);
                        }
                    }
                }
            }
            proof {
                if record.fatal is None {
                    assert forall|w: int, n: int|
                        from <= w < to && 0 <= n < entered.len() && entered[n]@.len() == 1
                            && entered[n]@[0].parked is None && #[trigger] direct_loop(
                            types,
                            closers,
                            from as int,
                            to as int,
                            w,
                        ) implies spun(
                        #[trigger] trace_row(*record, w, n),
                        trace_row(before, w, n).len() as int,
                    ) by {
                        assert(direct_loop(types, closers, from + 1, to as int, w));
                        lemma_direct_loop_within(types, closers, from + 1, to as int, w);
                        lemma_one_awake(visited@, entered, n);
                        assert(seen.traces@[w] == before.traces@[w]);
                    }
                }
            }
            after
        },
    }
}

/// Lanes that are the same but for what they hold are awake alike, input by input.
proof fn lemma_awake_same(after: Seq<Vec<Lane>>, before: Seq<Vec<Lane>>, n: int)
    requires
        same_lanes(after, before),
        0 <= n < before.len(),
    ensures
        awake(after[n]@) == awake(before[n]@),
{
    assert(widths(after)[n] == widths(before)[n]);
    assert forall|m: int| 0 <= m < after[n]@.len() implies (#[trigger] after[n]@[m]).parked
        is None == before[n]@[m].parked is None by {
        assert(after[n]@[m].parked == before[n]@[m].parked);
    }
    lemma_awake_alike(after[n]@, before[n]@);
}

/// Whether, for one input, the trace of the `while` at `position` has grown from one record
/// to another by `more` executions more than the trace of its `end`, which has not shrunk.
pub open spec fn looped(
    after: Record,
    before: Record,
    position: int,
    end: int,
    n: int,
    more: int,
) -> bool {
    &&& trace_heights(after.traces@, end)[n] >= trace_heights(before.traces@, end)[n]
    &&& trace_heights(after.traces@, position)[n] - trace_heights(before.traces@, position)[n]
        == trace_heights(after.traces@, end)[n] - trace_heights(before.traces@, end)[n] + more
}

/// Runs the `while` at `position`, whose `end` is at `end`: pass by pass, as long as a lane
/// goes on and the passes are not used up.
///
/// The `while` is evaluated for every lane that has come to it, at least once and at most
/// once more than it has passes. A lane goes through the blocks up to the `end` after each
/// evaluation but its last: where nothing has ended the run, the trace of the `while` has
/// grown, for each input, by one execution more for each such lane than the trace of the
/// `end`. With no passes, the blocks up to the `end` are not executed at all.
fn loop_scope<E: Executor>(
    app: &App,
    position: usize,
    end: usize,
    lanes: Vec<Vec<Lane>>,
    record: &mut Record,
    executor: &mut E,
    Ghost(origin): Ghost<Origin>,
) -> (after: Vec<Vec<Lane>>)
    requires
        rooted(lanes@, origin),
        excused(lanes@, *old(record)),
        position < end < app.blocks().len(),
        app.closers().len() == app.blocks().len(),
        well_scoped(types_of(app.blocks()), app.closers(), position + 1, end as int),
        shaped(*old(record), app.blocks().len(), lanes@.len() as nat),
        upheld::<E>(*old(record), app.blocks(), origin),
        app.blocks()[position as int].block_type == BlockType::While,
        app.blocks()[end as int].block_type == BlockType::End,
    ensures
        upheld::<E>(*final(record), app.blocks(), origin),
        rooted(after@, origin),
        excused(after@, *final(record)),
        extends(*final(record), *old(record)),
        final(record).fatal is None ==> forall|n: int|
            0 <= n < lanes@.len() && (#[trigger] lanes@[n])@.len() == 1 && lanes@[n]@[0].parked
                is None ==> spun(
                trace_row(*final(record), position as int, n),
                trace_row(*old(record), position as int, n).len() as int,
            ),
        old(record).fatal is Some ==> final(record).fatal == old(record).fatal,
        same_lanes(after@, lanes@),
        same_outside(*final(record), *old(record), position as int, end + 1, lanes@.len() as nat),
        forall|n: int|
            0 <= n < lanes@.len() ==> (#[trigger] trace_heights(final(record).traces@, end as int)[n])
                <= trace_heights(old(record).traces@, end as int)[n]
                + app.blocks()[position as int].max_iterations * lanes@[n]@.len(),
        forall|n: int|
            0 <= n < lanes@.len() ==> trace_heights(old(record).traces@, position as int)[n]
                + awake(lanes@[n]@) <= (#[trigger] trace_heights(
                final(record).traces@,
                position as int,
            )[n]) <= trace_heights(old(record).traces@, position as int)[n] + (
            app.blocks()[position as int].max_iterations + 1) * lanes@[n]@.len(),
        final(record).fatal is None ==> forall|n: int|
            0 <= n < lanes@.len() ==> #[trigger] looped(
                *final(record),
                *old(record),
                position as int,
                end as int,
                n,
                awake(lanes@[n]@) as int,
            ),
        app.blocks()[position as int].max_iterations == 0 ==> forall|i: int|
            position < i <= end ==> (#[trigger] final(record).traces@[i]) == old(record).traces@[i],
    decreases end - position,
{
    let max = app.block(position).max_iterations;
    let name = app.block(position).name.as_str();
    let ghost before = *record;
    let ghost entry = lanes@;
    let entered = pass(&lanes, position, name, 0, false);
    let mut current = entered.0;
    let mut iteration: usize = 0;
    proof {
        lemma_rooted_kept(current@, lanes@, origin);
        lemma_excused_same(current@, lanes@, *record);
        assert forall|n: int|
            0 <= n < entry.len() && (#[trigger] entry[n])@.len() == 1 && entry[n]@[0].parked
                is None implies current@[n]@.len() == 1 && spinning(
            current@[n]@[0].parked is Some,
            trace_row(*record, position as int, n),
            trace_row(before, position as int, n).len() as int,
        ) by {
            assert(widths(current@)[n] == current@[n]@.len());
            assert(widths(entry)[n] == entry[n]@.len());
            assert(passed(entry[n]@[0], current@[n]@[0], position, name@, 0, false));
        }
        assert forall|n: int| 0 <= n < entry.len() implies 0 * entry[n]@.len() == 0 by {
            assert(0 * entry[n]@.len() == 0) by (nonlinear_arith);
        }
        assert forall|n: int| 0 <= n < entry.len() implies awake(current@[n]@) == awake(
            #[trigger] entry[n]@,
        ) by {
            assert(widths(current@)[n] == widths(entry)[n]);
            lemma_awake_alike(current@[n]@, entry[n]@);
        }
    }
    while iteration <= max
        invariant_except_break
            forall|n: int|
                0 <= n < entry.len() && awake(current@[n]@) > 0 ==> (#[trigger] trace_heights(
                    record.traces@,
                    position as int,
                )[n]) >= trace_heights(before.traces@, position as int)[n] + iteration,
            forall|n: int|
                0 <= n < entry.len() && (#[trigger] entry[n])@.len() == 1 && entry[n]@[0].parked
                    is None ==> current@[n]@.len() == 1 && spinning(
                    current@[n]@[0].parked is Some,
                    trace_row(*record, position as int, n),
                    trace_row(before, position as int, n).len() as int,
                ),
            forall|n: int|
                0 <= n < entry.len() ==> #[trigger] looped(
                    *record,
                    before,
                    position as int,
                    end as int,
                    n,
                    awake(entry[n]@) - awake(current@[n]@),
                ),
            iteration == 0 ==> forall|i: int|
                position <= i <= end ==> (#[trigger] record.traces@[i]) == before.traces@[i],
        invariant
            iteration <= max,
            entry == lanes@,
            upheld::<E>(*record, app.blocks(), origin),
            rooted(current@, origin),
            excused(current@, *record),
            extends(*record, before),
            before.fatal is Some ==> record.fatal == before.fatal,
            app.blocks()[position as int].block_type == BlockType::While,
            app.blocks()[end as int].block_type == BlockType::End,
            forall|n: int|
                0 <= n < entry.len() ==> (#[trigger] trace_heights(record.traces@, end as int)[n])
                    <= trace_heights(before.traces@, end as int)[n] + iteration * entry[n]@.len(),
            position < end < app.blocks().len(),
            app.closers().len() == app.blocks().len(),
            well_scoped(types_of(app.blocks()), app.closers(), position + 1, end as int),
            current@.len() == entry.len(),
            widths(current@) == widths(entry),
            same_outside(*record, before, position as int, end + 1, entry.len() as nat),
            before.traces@.len() == app.blocks().len(),
            before.blocks@.len() == app.blocks().len(),
            max == app.blocks()[position as int].max_iterations,
            name@ == app.blocks()[position as int].name@,
        ensures
            record.fatal is None ==> forall|n: int|
                0 <= n < entry.len() && (#[trigger] entry[n])@.len() == 1 && entry[n]@[0].parked
                    is None ==> spun(
                    trace_row(*record, position as int, n),
                    trace_row(before, position as int, n).len() as int,
                ),
            forall|n: int|
                0 <= n < entry.len() ==> trace_heights(before.traces@, position as int)[n] + awake(
                    entry[n]@,
                ) <= (#[trigger] trace_heights(record.traces@, position as int)[n])
                    <= trace_heights(before.traces@, position as int)[n] + (max + 1)
                    * entry[n]@.len(),
            record.fatal is None ==> forall|n: int|
                0 <= n < entry.len() ==> #[trigger] looped(
                    *record,
                    before,
                    position as int,
                    end as int,
                    n,
                    awake(entry[n]@) as int,
                ),
            max == 0 ==> forall|i: int|
                position < i <= end ==> (#[trigger] record.traces@[i]) == before.traces@[i],
        decreases max + 1 - iteration,
    {
        let ghost started = *record;
        let ghost asked = current@;
        current = visit(app, position, iteration >= max, current, record, executor, Ghost(origin));
        let ghost evaluated = *record;
        let ghost unparked = current@;
        proof {
            lemma_extends(*record, started, before);
            // The loop is over, or on its way with one evaluation more, for each input that
            // has come with one lane.
            assert forall|n: int|
                0 <= n < entry.len() && (#[trigger] entry[n])@.len() == 1 && entry[n]@[0].parked
                    is None implies current@[n]@.len() == 1 && current@[n]@[0].parked
                == asked[n]@[0].parked && visited_row(
                asked[n]@[0],
                current@[n]@[0],
                trace_row(started, position as int, n),
                trace_row(*record, position as int, n),
                name@,
                iteration >= max,
                BlockType::While,
            ) by {
                assert(asked[n]@.len() == 1);
                assert(widths(current@)[n] == current@[n]@.len());
                assert(widths(asked)[n] == asked[n]@.len());
            }
            if record.fatal is None && iteration >= max {
                assert forall|n: int|
                    0 <= n < entry.len() && (#[trigger] entry[n])@.len() == 1 && entry[n]@[0].parked
                        is None implies spun(
                    trace_row(*record, position as int, n),
                    trace_row(before, position as int, n).len() as int,
                ) by {
                    let row = trace_row(started, position as int, n);
                    let grown = trace_row(*record, position as int, n);
                    assert(visited_row(
                        asked[n]@[0],
                        current@[n]@[0],
                        row,
                        grown,
                        name@,
                        iteration >= max,
                        BlockType::While,
                    ));
                    if asked[n]@[0].parked is None {
                        assert forall|k: int|
                            trace_row(before, position as int, n).len() <= k < grown.len()
                                - 1 implies (#[trigger] grown[k]).value == Some(
                            Json::Bool(true),
                        ) by {
                            assert(grown.drop_last()[k] == grown[k]);
                        }
                    }
                }
            }
            assert(record.traces@[end as int] == started.traces@[end as int]);
            assert(trace_heights(record.traces@, end as int) == trace_heights(
                started.traces@,
                end as int,
            ));
            if iteration == 0 {
                assert forall|i: int| position < i <= end implies (#[trigger] record.traces@[i])
                    == before.traces@[i] by {
                    assert(record.traces@[i] == started.traces@[i]);
                }
            }
            // After the evaluation each lane that has come to the loop has been evaluated
            // once more than it has gone through the `end`.
            assert forall|n: int| 0 <= n < entry.len() implies #[trigger] looped(
                *record,
                before,
                position as int,
                end as int,
                n,
                awake(entry[n]@) as int,
            ) by {
                assert(looped(
                    started,
                    before,
                    position as int,
                    end as int,
                    n,
                    awake(entry[n]@) - awake(asked[n]@),
                ));
                assert(trace_heights(record.traces@, position as int)[n] == trace_heights(
                    started.traces@,
                    position as int,
                )[n] + awake(asked[n]@));
            }
            assert forall|n: int| 0 <= n < entry.len() implies trace_heights(
                before.traces@,
                position as int,
            )[n] + awake(entry[n]@) <= (#[trigger] trace_heights(record.traces@, position as int)[n])
                <= trace_heights(before.traces@, position as int)[n] + (max + 1)
                * entry[n]@.len() by {
                assert(looped(
                    *record,
                    before,
                    position as int,
                    end as int,
                    n,
                    awake(entry[n]@) as int,
                ));
                assert(trace_heights(record.traces@, end as int)[n] <= trace_heights(
                    before.traces@,
                    end as int,
                )[n] + iteration * entry[n]@.len());
                lemma_awake_bounded(entry[n]@);
                assert(iteration * entry[n]@.len() + entry[n]@.len() <= (max + 1)
                    * entry[n]@.len()) by (nonlinear_arith)
                    requires
                        iteration <= max,
                        entry[n]@.len() >= 0,
                ;
            }
        }
        if record.fatal.is_some() || iteration >= max {
            break;
        }
        let parked = pass(&current, position, name, iteration, true);
        current = parked.0;
        proof {
            lemma_rooted_kept(current@, unparked, origin);
            lemma_excused_same(current@, unparked, *record);
            // A lane goes on where the evaluation gave `true`, and waits for the `end` where
            // it did not.
            assert forall|n: int|
                0 <= n < entry.len() && (#[trigger] entry[n])@.len() == 1 && entry[n]@[0].parked
                    is None implies current@[n]@.len() == 1 && spinning(
                current@[n]@[0].parked is Some,
                trace_row(*record, position as int, n),
                trace_row(before, position as int, n).len() as int,
            ) by {
                let row = trace_row(started, position as int, n);
                let grown = trace_row(*record, position as int, n);
                assert(widths(current@)[n] == current@[n]@.len());
                assert(widths(unparked)[n] == unparked[n]@.len());
                assert(passed(
                    unparked[n]@[0],
                    current@[n]@[0],
                    position,
                    name@,
                    iteration,
                    true,
                ));
                assert(visited_row(
                    asked[n]@[0],
                    unparked[n]@[0],
                    row,
                    grown,
                    name@,
                    iteration >= max,
                    BlockType::While,
                ));
                if asked[n]@[0].parked is None {
                    lemma_goes_on(unparked[n]@[0], grown.last(), name@);
                    assert forall|k: int|
                        trace_row(before, position as int, n).len() <= k < grown.len()
                            - 1 implies (#[trigger] grown[k]).value == Some(Json::Bool(true)) by {
                        assert(grown.drop_last()[k] == grown[k]);
                    }
                }
            }
            assert forall|n: int| 0 <= n < entry.len() implies awake(#[trigger] current@[n]@)
                <= awake(unparked[n]@) by {
                assert(widths(current@)[n] == current@[n]@.len());
                assert(widths(unparked)[n] == unparked[n]@.len());
                assert forall|m: int| 0 <= m < current@[n]@.len() && (
                #[trigger] current@[n]@[m]).parked is None implies unparked[n]@[m].parked
                    is None by {
                    assert(passed(
                        unparked[n]@[m],
                        current@[n]@[m],
                        position,
                        name@,
                        iteration,
                        true,
                    ));
                }
                lemma_awake_fewer(current@[n]@, unparked[n]@);
            }
        }
        if !parked.1 {
            break;
        }
        let ghost waiting = current@;
        current = run_range(app, position + 1, end, current, record, executor, Ghost(origin));
        proof {
            lemma_extends(*record, evaluated, before);
            assert forall|n: int|
                0 <= n < entry.len() && (#[trigger] entry[n])@.len() == 1 && entry[n]@[0].parked
                    is None implies current@[n]@.len() == 1 && current@[n]@[0].parked
                == waiting[n]@[0].parked by {
                assert(widths(current@)[n] == current@[n]@.len());
                assert(widths(waiting)[n] == waiting[n]@.len());
            }
            assert(record.traces@[end as int] == evaluated.traces@[end as int]);
            assert(trace_heights(record.traces@, end as int) == trace_heights(
                evaluated.traces@,
                end as int,
            ));
            assert(record.traces@[position as int] == evaluated.traces@[position as int]);
            assert(trace_heights(record.traces@, position as int) == trace_heights(
                evaluated.traces@,
                position as int,
            ));
        }
        if record.fatal.is_some() {
            break;
        }
        let ghost bodied = *record;
        let ghost closing = current@;
        current = visit(app, end, true, current, record, executor, Ghost(origin));
        proof {
            lemma_extends(*record, bodied, before);
            assert forall|n: int|
                0 <= n < entry.len() && (#[trigger] entry[n])@.len() == 1 && entry[n]@[0].parked
                    is None implies current@[n]@.len() == 1 && current@[n]@[0].parked
                == closing[n]@[0].parked by {
                assert(widths(current@)[n] == current@[n]@.len());
                assert(widths(closing)[n] == closing[n]@.len());
            }
            assert(record.traces@[position as int] == bodied.traces@[position as int]);
            assert(trace_heights(record.traces@, position as int) == trace_heights(
                bodied.traces@,
                position as int,
            ));
            assert forall|n: int| 0 <= n < entry.len() implies (#[trigger] trace_heights(
                record.traces@,
                end as int,
            )[n]) <= trace_heights(before.traces@, end as int)[n] + (iteration + 1)
                * entry[n]@.len() by {
                assert(trace_heights(record.traces@, end as int)[n] == trace_heights(
                    bodied.traces@,
                    end as int,
                )[n] + awake(closing[n]@));
                lemma_awake_bounded(closing[n]@);
                assert(widths(closing)[n] == widths(entry)[n]);
                assert((iteration + 1) * entry[n]@.len() == iteration * entry[n]@.len()
                    + entry[n]@.len()) by (nonlinear_arith);
            }
        }
        if record.fatal.is_some() {
            iteration += 1;
            break;
        }
        let ghost closed = current@;
        iteration += 1;
        let next = pass(&current, position, name, iteration, false);
        current = next.0;
        proof {
            lemma_rooted_kept(current@, closed, origin);
            lemma_excused_same(current@, closed, *record);
            assert forall|n: int|
                0 <= n < entry.len() && (#[trigger] entry[n])@.len() == 1 && entry[n]@[0].parked
                    is None implies current@[n]@.len() == 1 && spinning(
                current@[n]@[0].parked is Some,
                trace_row(*record, position as int, n),
                trace_row(before, position as int, n).len() as int,
            ) by {
                assert(widths(current@)[n] == current@[n]@.len());
                assert(widths(closed)[n] == closed[n]@.len());
                assert(passed(
                    closed[n]@[0],
                    current@[n]@[0],
                    position,
                    name@,
                    iteration,
                    false,
                ));
                assert(trace_row(*record, position as int, n) == trace_row(
                    evaluated,
                    position as int,
                    n,
                ));
            }
            assert forall|n: int| 0 <= n < entry.len() implies #[trigger] looped(
                *record,
                before,
                position as int,
                end as int,
                n,
                awake(entry[n]@) - awake(current@[n]@),
            ) by {
                assert(looped(
                    evaluated,
                    before,
                    position as int,
                    end as int,
                    n,
                    awake(entry[n]@) as int,
                ));
                lemma_awake_same(closed, closing, n);
                assert(widths(current@)[n] == widths(closed)[n]);
                lemma_awake_alike(current@[n]@, closed[n]@);
                assert(trace_heights(record.traces@, end as int)[n] == trace_heights(
                    bodied.traces@,
                    end as int,
                )[n] + awake(closing[n]@));
            }
            // A lane that is still awake has been evaluated in each pass so far.
            assert forall|n: int| 0 <= n < entry.len() && awake(current@[n]@) > 0 implies (
            #[trigger] trace_heights(record.traces@, position as int)[n]) >= trace_heights(
                before.traces@,
                position as int,
            )[n] + iteration by {
                assert(widths(current@)[n] == widths(closed)[n]);
                lemma_awake_alike(current@[n]@, closed[n]@);
                lemma_awake_same(closed, closing, n);
                lemma_awake_same(closing, waiting, n);
                assert(awake(waiting[n]@) <= awake(unparked[n]@));
                lemma_awake_same(unparked, asked, n);
                assert(awake(asked[n]@) > 0);
                assert(trace_heights(evaluated.traces@, position as int)[n] == trace_heights(
                    started.traces@,
                    position as int,
                )[n] + awake(asked[n]@));
            }
        }
    }
    proof {
        assert forall|n: int| 0 <= n < entry.len() implies (#[trigger] trace_heights(
            record.traces@,
            end as int,
        )[n]) <= trace_heights(before.traces@, end as int)[n] + max * entry[n]@.len() by {
            assert(iteration * entry[n]@.len() <= max * entry[n]@.len()) by (nonlinear_arith)
                requires
                    iteration <= max,
                    entry[n]@.len() >= 0,
            ;
        }
    }
    let left = leave(&lanes, &current);
    proof {
        lemma_rooted_kept(left@, current@, origin);
        assert(widths(left@) == widths(current@));
        lemma_excused_same(left@, current@, *record);
    }
    left
}

/// In a list of blocks that opens no scope, every block stands outside the scopes.
pub proof fn without_scopes_all_direct(types: Seq<BlockType>, closers: Seq<int>, from: int, i: int)
    requires
        0 <= from <= i < types.len(),
        forall|k: int| 0 <= k < types.len() ==> closer_of(#[trigger] types[k]) is None,
    ensures
        direct(types, closers, from, types.len() as int, i),
    decreases i - from,
{
    assert(closer_of(types[from]) is None);
    if from < i {
        without_scopes_all_direct(types, closers, from + 1, i);
    }
}

impl Record {
    /// The status of the run that the record is of: it has succeeded unless something ended
    /// it early, whatever failed for single rows; each block has the counts of its
    /// executions.
    pub fn status(&self) -> (status: RunStatus)
        ensures
            status.run == (if self.fatal is Some {
                Status::Errored
            } else {
                Status::Succeeded
            }),
            status.blocks.deep_view() == self.blocks.deep_view(),
    {
        let blocks = self.blocks.clone();
        assert(blocks.deep_view() =~= self.blocks.deep_view()) by {
            assert forall|i: int| 0 <= i < self.blocks@.len() implies blocks@[i].deep_view()
                == self.blocks@[i].deep_view() by {
                assert(cloned::<BlockStatus>(self.blocks@[i], blocks@[i]));
            }
        }
        RunStatus {
            run: if self.fatal.is_some() {
                Status::Errored
            } else {
                Status::Succeeded
            },
            blocks,
        }
    }
}

/// Runs an app over the inputs: block by block, each block for all the rows that have come
/// to it before the next block begins.
///
/// Whatever the executions give, the record has a trace for each block and in it a row for
/// each input; the trace of the `root` block holds each input, handed on unchanged; and the
/// `end` of a `while` of the app's first level is executed at most `max_iterations` times for
/// each input. Where nothing ended the run early, the trace of a block outside the `while`
/// scopes of the app's first level holds one execution for each input, and that of a block
/// in the scope of a `map` of the first level holds as many as the `map` gave items for the
/// input; the `reduce` of such a `map` gives an array of as many items, the empty array for
/// none.
///
/// Where nothing ended the run early, a `while` of the app's first level was executed for
/// each input as long as it gave `true`: each of its executions but the last gave `true`, and
/// the last did not.
///
/// The record is [`sound`]. Each execution is what the engine records by itself (for `root`,
/// `reduce` and `end`, for a `while` whose passes are used up, and for a row for which an
/// execution had failed before), or what is recorded for an outcome that the executor gave
/// for that block, in the place of an environment that holds the input of that row, the
/// options and the secrets of the run. The engine gives the value of a `while` only where its
/// row has `max_iterations` executions already, and leaves an execution out only for an input
/// for which an execution has failed. The counts of each block are those of its trace. The
/// run ends early only by the executor: by an outcome that ends the run, by outcomes too few
/// or too many for the environments it was handed, or by the error with which it took note
/// of a block; and where the run has not ended early, no outcome that was recorded came with
/// any of these.
pub fn run<E: Executor>(
    app: &App,
    inputs: &Vec<JsonValue>,
    config: &RunConfig,
    credentials: &Vec<Credential>,
    executor: &mut E,
) -> (record: Record)
    ensures
        shaped(record, app.blocks().len(), inputs@.len() as nat),
        sound::<E>(
            record,
            (Origin {
                inputs: inputs.deep_view(),
                config: config.deep_view(),
                credentials: credentials@,
            }),
            app.blocks(),
        ),
        forall|i: int|
            0 <= i < app.blocks().len() ==> (#[trigger] record.traces@[i]).block_type
                == app.blocks()[i].block_type && record.traces@[i].name@ == app.blocks()[i].name@,
        forall|i: int|
            0 <= i < app.blocks().len() ==> (#[trigger] record.blocks@[i]).block_type
                == app.blocks()[i].block_type && record.blocks@[i].name@ == app.blocks()[i].name@,
        record.fatal is None ==> forall|i: int, n: int|
            0 <= i < app.blocks().len() && 0 <= n < inputs@.len() && direct(
                types_of(app.blocks()),
                app.closers(),
                0,
                app.blocks().len() as int,
                i,
            ) ==> (#[trigger] record.traces@[i].executions@[n])@.len() == 1,
        forall|n: int|
            0 <= n < inputs@.len() ==> (#[trigger] record.traces@[0].executions@[n]).deep_view()
                == seq![handed(Some(inputs@[n]))],
        forall|w: int, n: int|
            0 <= w < app.blocks().len() && 0 <= n < inputs@.len() && #[trigger] direct_loop(
                types_of(app.blocks()),
                app.closers(),
                0,
                app.blocks().len() as int,
                w,
            ) ==> (#[trigger] record.traces@[app.closers()[w]].executions@[n])@.len()
                <= app.blocks()[w].max_iterations,
        record.fatal is None ==> forall|w: int, n: int|
            0 <= w < app.blocks().len() && 0 <= n < inputs@.len() && #[trigger] direct_loop(
                types_of(app.blocks()),
                app.closers(),
                0,
                app.blocks().len() as int,
                w,
            ) ==> spun(#[trigger] trace_row(record, w, n), 0),
        record.fatal is None ==> forall|p: int, n: int|
            0 <= p < app.blocks().len() && 0 <= n < inputs@.len() && #[trigger] direct_map(
                types_of(app.blocks()),
                app.closers(),
                0,
                app.blocks().len() as int,
                p,
            ) ==> gathered_value(
                valued(#[trigger] record.traces@[app.closers()[p]].executions@[n].deep_view()),
                valued(record.traces@[p].executions@[n].deep_view()) is None,
                fanout(record.traces@[p].executions@[n].deep_view()),
            ),
        record.fatal is None ==> forall|p: int, i: int, n: int|
            0 <= p < app.blocks().len() && 0 <= n < inputs@.len() && #[trigger] direct_map(
                types_of(app.blocks()),
                app.closers(),
                0,
                app.blocks().len() as int,
                p,
            ) && #[trigger] inside(types_of(app.blocks()), app.closers(), p, i) ==> (
            #[trigger] record.traces@[i].executions@[n])@.len() == fanout(
                record.traces@[p].executions@[n].deep_view(),
            ),
{
    let blocks = app.len();
    let mut traces: Vec<Trace> = Vec::new();
    let mut statuses: Vec<BlockStatus> = Vec::new();
    let mut i: usize = 0;
    while i < blocks
        invariant
            i <= blocks,
            blocks == app.blocks().len(),
            traces@.len() == i,
            statuses@.len() == i,
            forall|k: int|
                0 <= k < i ==> (#[trigger] traces@[k]).executions@.len() == inputs@.len()
                    && traces@[k].block_type == app.blocks()[k].block_type && traces@[k].name@
                    == app.blocks()[k].name@,
            forall|k: int|
                0 <= k < i ==> (#[trigger] statuses@[k]).block_type == app.blocks()[k].block_type
                    && statuses@[k].name@ == app.blocks()[k].name@,
            forall|k: int|
                0 <= k < i ==> (#[trigger] statuses@[k]).success_count == 0
                    && statuses@[k].error_count == 0 && statuses@[k].status == Status::Running,
            forall|k: int, n: int|
                0 <= k < i && 0 <= n < inputs@.len() ==> (#[trigger] traces@[k].executions@[n])@.len()
                    == 0,
        decreases blocks - i,
    {
        let block = app.block(i);
        let mut executions: Vec<Vec<BlockExecution>> = Vec::new();
        let mut n: usize = 0;
        while n < inputs.len()
            invariant
                n <= inputs.len(),
                executions@.len() == n,
                forall|k: int| 0 <= k < n ==> (#[trigger] executions@[k])@.len() == 0,
            decreases inputs.len() - n,
        {
            executions.push(Vec::new());
            n += 1;
        }
        traces.push(Trace { block_type: block.block_type, name: block.name.clone(), executions });
        statuses.push(
            BlockStatus {
                block_type: block.block_type,
                name: block.name.clone(),
                status: Status::Running,
                success_count: 0,
                error_count: 0,
            },
        );
        i += 1;
    }
    let mut lanes: Vec<Vec<Lane>> = Vec::new();
    let mut n: usize = 0;
    while n < inputs.len()
        invariant
            n <= inputs.len(),
            lanes@.len() == n,
            forall|k: int| 0 <= k < n ==> (#[trigger] lanes@[k])@.len() == 1,
            forall|k: int, m: int|
                0 <= k < n && 0 <= m < lanes@[k]@.len() ==> (#[trigger] lanes@[k]@[m]).parked
                    is None,
            forall|k: int|
                0 <= k < n ==> !(#[trigger] lanes@[k])@[0].failed && or_null(
                    lanes@[k]@[0].env.input.value,
                ) == inputs@[k]@,
            forall|k: int|
                0 <= k < n ==> (#[trigger] lanes@[k])@[0].env.input.index == k
                    && lanes@[k]@[0].env.config.deep_view() == config.deep_view() && forall|
                    name: Seq<char>,
                |
                    #[trigger] secret_of(lanes@[k]@[0].env.credentials@, name) == secret_of(
                        credentials@,
                        name,
                    ),
        decreases inputs.len() - n,
    {
        let mut row: Vec<Lane> = Vec::new();
        row.push(
            Lane {
                env: Env {
                    config: config.clone(),
                    state: Vec::new(),
                    input: InputState { value: Some(inputs[n].clone()), index: n },
                    map: None,
                    credentials: copy_credentials(credentials),
                },
                failed: false,
                parked: None,
            },
        );
        lanes.push(row);
        n += 1;
    }
    let mut record = Record { traces, blocks: statuses, fatal: None };
    let ghost origin = Origin {
        inputs: inputs.deep_view(),
        config: config.deep_view(),
        credentials: credentials@,
    };
    proof {
        assert forall|n: int, m: int| 0 <= n < lanes@.len() && 0 <= m < lanes@[n]@.len() implies of_input(
            (#[trigger] lanes@[n]@[m]).env,
            n,
            origin,
        ) by {
            assert(lanes@[n]@.len() == 1);
            assert(inputs.deep_view()[n] == inputs@[n]@);
        }
    }
    let ghost types = types_of(app.blocks());
    let ghost closers = app.closers();
    let ghost before = record;
    let ghost entered = lanes@;
    proof {
        assert forall|i: int| 0 <= i < record.blocks@.len() implies (
        #[trigger] record.blocks@[i]).success_count == saturated(
            successes(record.traces@[i].executions@) as int,
        ) && record.blocks@[i].error_count == saturated(
            errors(record.traces@[i].executions@) as int,
        ) && (record.blocks@[i].status != Status::Running ==> (record.blocks@[i].status
            == Status::Errored) == (record.blocks@[i].error_count > 0)) by {
            lemma_counts_empty(record.traces@[i].executions@);
        }
        assert(upheld::<E>(record, app.blocks(), origin));
        assert(types[0] == app.blocks()[0].block_type);
        assert(types[0] == BlockType::Root);
        assert(fresh(entered));
        assert(all_awake(entered));
        assert forall|n: int| 0 <= n < inputs@.len() implies (
        #[trigger] before.traces@[0].executions@[n]).deep_view() =~= Seq::empty() by {
            assert(before.traces@[0].executions@[n]@.len() == 0);
        }
    }
    let first = visit(app, 0, true, lanes, &mut record, executor, Ghost(origin));
    let ghost rooted = record;
    let after = run_range(app, 1, blocks, first, &mut record, executor, Ghost(origin));
    proof {
        lemma_same_lanes_refl(entered);
        lemma_same_lanes(first@, entered, entered);
        assert forall|n: int| 0 <= n < inputs@.len() implies (
        #[trigger] record.traces@[0].executions@[n]).deep_view() == seq![
            handed(Some(inputs@[n])),
        ] by {
            assert(record.traces@[0] == rooted.traces@[0]);
            assert(rooted.traces@[0].executions@[n].deep_view()
                == before.traces@[0].executions@[n].deep_view().push(
                handed(entered[n]@[0].env.input.value),
            ));
            assert(or_null(entered[n]@[0].env.input.value) == inputs@[n]@);
        }
        assert forall|w: int, n: int|
            0 <= w < app.blocks().len() && 0 <= n < inputs@.len() && #[trigger] direct_loop(
                types,
                closers,
                0,
                app.blocks().len() as int,
                w,
            ) implies (#[trigger] record.traces@[closers[w]].executions@[n])@.len()
            <= app.blocks()[w].max_iterations by {
            assert(direct_loop(types, closers, 1, app.blocks().len() as int, w));
            lemma_direct_loop_within(types, closers, 1, app.blocks().len() as int, w);
            let end = closers[w];
            assert(trace_heights(record.traces@, end)[n] <= trace_heights(rooted.traces@, end)[n]
                + app.blocks()[w].max_iterations * first@[n]@.len());
            assert(rooted.traces@[end] == before.traces@[end]);
            assert(trace_heights(rooted.traces@, end) == trace_heights(before.traces@, end));
            assert(before.traces@[end].executions@[n]@.len() == 0);
            assert(widths(first@)[n] == widths(entered)[n]);
            assert(first@[n]@.len() == 1);
            assert(app.blocks()[w].max_iterations * 1 == app.blocks()[w].max_iterations) by (nonlinear_arith);
        }
        if record.fatal is None {
            assert forall|w: int, n: int|
                0 <= w < app.blocks().len() && 0 <= n < inputs@.len() && #[trigger] direct_loop(
                    types,
                    closers,
                    0,
                    app.blocks().len() as int,
                    w,
                ) implies spun(#[trigger] trace_row(record, w, n), 0) by {
                assert(direct_loop(types, closers, 1, app.blocks().len() as int, w));
                lemma_direct_loop_within(types, closers, 1, app.blocks().len() as int, w);
                lemma_one_awake(first@, entered, n);
                assert(rooted.traces@[w] == before.traces@[w]);
                assert(before.traces@[w].executions@[n]@.len() == 0);
                assert(trace_row(rooted, w, n).len() == 0);
            }
        }
        if record.fatal is None {
            lemma_single(first@, entered);
            assert forall|p: int, n: int|
                0 <= p < app.blocks().len() && 0 <= n < inputs@.len() && #[trigger] direct_map(
                    types,
                    closers,
                    0,
                    app.blocks().len() as int,
                    p,
                ) implies gathered_value(
                valued(#[trigger] record.traces@[closers[p]].executions@[n].deep_view()),
                valued(record.traces@[p].executions@[n].deep_view()) is None,
                fanout(record.traces@[p].executions@[n].deep_view()),
            ) by {
                assert(direct_map(types, closers, 1, app.blocks().len() as int, p));
                lemma_direct_map_within(types, closers, 1, app.blocks().len() as int, p);
            }
            assert forall|p: int, i: int, n: int|
                0 <= p < app.blocks().len() && 0 <= n < inputs@.len() && #[trigger] direct_map(
                    types,
                    closers,
                    0,
                    app.blocks().len() as int,
                    p,
                ) && #[trigger] inside(types, closers, p, i) implies (
            #[trigger] record.traces@[i].executions@[n])@.len() == fanout(
                record.traces@[p].executions@[n].deep_view(),
            ) by {
                assert(direct_map(types, closers, 1, app.blocks().len() as int, p));
                lemma_direct_map_within(types, closers, 1, app.blocks().len() as int, p);
                lemma_direct_within(types, closers, p + 1, closers[p], i);
                assert(trace_heights(record.traces@, i)[n] == trace_heights(rooted.traces@, i)[n]
                    + fanout(record.traces@[p].executions@[n].deep_view()));
                assert(rooted.traces@[i] == before.traces@[i]);
                assert(trace_heights(rooted.traces@, i) == trace_heights(before.traces@, i));
                assert(before.traces@[i].executions@[n]@.len() == 0);
            }
        }
        if record.fatal is None {
            assert(all_awake(first@));
            assert forall|i: int, n: int|
                0 <= i < app.blocks().len() && 0 <= n < inputs@.len() && direct(
                    types,
                    closers,
                    0,
                    app.blocks().len() as int,
                    i,
                ) implies (#[trigger] record.traces@[i].executions@[n])@.len() == 1 by {
                if i == 0 {
                    assert(record.traces@[0] == rooted.traces@[0]);
                    assert(trace_heights(rooted.traces@, 0)[n] == trace_heights(before.traces@, 0)[n]
                        + widths(entered)[n]);
                } else {
                    assert(direct(types, closers, 1, app.blocks().len() as int, i));
                    assert(trace_heights(record.traces@, i) == sums(
                        trace_heights(rooted.traces@, i),
                        widths(first@),
                    ));
                    assert(trace_heights(record.traces@, i)[n] == trace_heights(rooted.traces@, i)[n]
                        + widths(first@)[n]);
                    assert(rooted.traces@[i] == before.traces@[i]);
                    assert(widths(first@)[n] == widths(entered)[n]);
                }
                assert(before.traces@[i].executions@[n]@.len() == 0);
            }
        }
    }
    record
}

/// What a store contains after a run was created in it and the traces of its first `count`
/// blocks were appended, one after the other.
pub open spec fn kept(contents: Contents, project: int, run: RunRecord, count: int) -> Contents
    decreases count,
{
    if count <= 0 {
        contents.create_run(project, run)
    } else {
        kept(contents, project, run, count - 1).append_run_block(
            project,
            run.run_id,
            run.traces[count - 1],
        )
    }
}

/// Keeps a run in a store: the run is created, the trace of each of its blocks is appended
/// in the order of the blocks, and its status is set. It fails only where the store refuses
/// one of these operations, and then with the error of the store; what the store has taken
/// by then stays: nothing, or the run with the traces of its first blocks.
pub fn keep<S: Store>(store: &mut S, project: &Project, run: &Run) -> (r: Result<(), StoreError>)
    ensures
        match r {
            Ok(_) => old(store).contents().run(run.run_id@) is None && final(store).contents()
                == kept(
                old(store).contents(),
                project@,
                run.deep_view(),
                run.traces@.len() as int,
            ).update_run_status(project@, run.run_id@, run.status.deep_view()),
            Err(e) => {
                ||| exists|asked: &mut S|
                    #[trigger] call_ensures(
                        S::create_run_empty,
                        (asked, project, run),
                        Err::<(), StoreError>(e),
                    ) && *asked == *old(store) && *final(asked) == *final(store)
                        && final(store).contents() == old(store).contents()
                ||| exists|asked: &mut S, count: usize|
                    count < run.traces@.len() && #[trigger] call_ensures(
                        S::append_run_block,
                        (
                            asked,
                            project,
                            run,
                            count,
                            &run.traces@[count as int].block_type,
                            &run.traces@[count as int].name,
                        ),
                        Err::<(), StoreError>(e),
                    ) && asked.contents() == kept(
                        old(store).contents(),
                        project@,
                        run.deep_view(),
                        count as int,
                    ) && *final(asked) == *final(store) && final(store).contents()
                        == asked.contents()
                ||| exists|asked: &mut S, id: &str|
                    #[trigger] call_ensures(
                        S::update_run_status,
                        (asked, project, id, &run.status),
                        Err::<(), StoreError>(e),
                    ) && id@ == run.run_id@ && asked.contents() == kept(
                        old(store).contents(),
                        project@,
                        run.deep_view(),
                        run.traces@.len() as int,
                    ) && *final(asked) == *final(store) && final(store).contents()
                        == asked.contents()
            },
        },
{
    let ghost before = store.contents();
    let ghost record = run.deep_view();
    match store.create_run_empty(project, run) {
        Ok(_) => {},
        Err(e) => {
            return Err(e);
        },
    }
    let mut i: usize = 0;
    while i < run.traces.len()
        invariant
            i <= run.traces.len(),
            record == run.deep_view(),
            before == old(store).contents(),
            before.run(run.run_id@) is None,
            store.contents() == kept(before, project@, record, i as int),
        decreases run.traces.len() - i,
    {
        let trace = &run.traces[i];
        proof {
            assert(record.traces[i as int] == trace.deep_view());
        }
        match store.append_run_block(project, run, i, &trace.block_type, &trace.name) {
            Ok(_) => {},
            Err(e) => {
                return Err(e);
            },
        }
        i += 1;
    }
    match store.update_run_status(project, run.run_id.as_str(), &run.status) {
        Ok(_) => Ok(()),
        Err(e) => Err(e),
    }
}

/// What was kept of a run is loaded again: under an identifier that no run of the store had,
/// the run comes back with the traces that were appended, in their order.
pub proof fn kept_run_loads(contents: Contents, project: int, run: RunRecord, count: int)
    requires
        contents.run(run.run_id) is None,
        0 <= count <= run.traces.len(),
    ensures
        kept(contents, project, run, count).load_run(project, run.run_id, TraceFilter::All)
            == Some(RunRecord { traces: run.traces.take(count), ..run }),
        kept(contents, project, run, count).runs.len() == contents.runs.len() + 1,
        forall|j: int|
            0 <= j < contents.runs.len() ==> #[trigger] kept(contents, project, run, count).runs[j]
                == contents.runs[j],
        kept(contents, project, run, count).runs.last() == (StoredRun {
            project,
            run: RunRecord { traces: run.traces.take(count), ..run },
        }),
    decreases count,
{
    lemma_absent(contents.runs, run.run_id);
    let now = kept(contents, project, run, count);
    if count == 0 {
        assert(run.traces.take(0) =~= Seq::empty());
        assert(now.runs.last() == StoredRun {
            project,
            run: RunRecord { traces: Seq::empty(), ..run },
        });
    } else {
        kept_run_loads(contents, project, run, count - 1);
        let before = kept(contents, project, run, count - 1);
        assert(now.runs.len() == before.runs.len());
        assert forall|j: int| 0 <= j < contents.runs.len() implies #[trigger] now.runs[j]
            == contents.runs[j] by {
            assert(before.runs[j] == contents.runs[j]);
            assert(contents.runs[j].run.run_id != run.run_id);
        }
        assert(before.runs[before.runs.len() - 1] == before.runs.last());
        assert(run.traces.take(count) =~= run.traces.take(count - 1).push(run.traces[count - 1]));
        assert(now.runs[now.runs.len() - 1] == StoredRun {
            project,
            run: RunRecord { traces: run.traces.take(count), ..run },
        });
    }
}

/// A store in which no run is found under an identifier has no run of that identifier.
proof fn lemma_absent(rows: Seq<StoredRun>, run_id: Seq<char>)
    requires
        last_run(rows, |row: StoredRun| row.run.run_id == run_id) is None,
    ensures
        forall|j: int| 0 <= j < rows.len() ==> (#[trigger] rows[j]).run.run_id != run_id,
    decreases rows.len(),
{
    if rows.len() > 0 {
        lemma_absent(rows.drop_last(), run_id);
        assert forall|j: int| 0 <= j < rows.len() implies (#[trigger] rows[j]).run.run_id
            != run_id by {
            if j < rows.len() - 1 {
                assert(rows.drop_last()[j] == rows[j]);
            }
        }
    }
}

impl Record {
    /// The run that the record is of, under the identifier and the time that it is given: it
    /// has the hash of the app, the options it was run with, the status and the traces of
    /// the record.
    pub fn into_run(self, run_id: &str, created: u64, app: &App, config: &RunConfig) -> (run: Run)
        ensures
            run.run_id@ == run_id@,
            run.created == created,
            run.app_hash@ == crate::app::prefix_hash(app.blocks(), app.blocks().len() - 1),
            run.config.deep_view() == config.deep_view(),
            run.status.run == (if self.fatal is Some {
                Status::Errored
            } else {
                Status::Succeeded
            }),
            run.status.blocks.deep_view() == self.blocks.deep_view(),
            run.traces == self.traces,
    {
        let status = self.status();
        Run {
            run_id: String::from_str(run_id),
            created,
            app_hash: app.hash().clone(),
            config: config.clone(),
            status,
            traces: self.traces,
        }
    }
}

} // verus!
