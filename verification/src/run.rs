//! Runs: one evaluation of an app over a dataset, with the trace of each block and a status.

use crate::blocks::block::{BlockConfig, BlockType, RunConfig};
use crate::json::{Json, JsonValue};
use vstd::prelude::*;

verus! {

/// How far a run, or a block in it, has come.
#[derive(Clone, Copy, Debug, PartialEq, Eq, Structural)]
pub enum Status {
    Running,
    Succeeded,
    Errored,
}

/// The status of one block in a run: how many of its executions succeeded, and how many
/// failed.
pub struct BlockStatus {
    pub block_type: BlockType,
    pub name: String,
    pub status: Status,
    pub success_count: usize,
    pub error_count: usize,
}

/// The mathematical form of a [`BlockStatus`].
pub struct BlockProgress {
    pub block_type: BlockType,
    pub name: Seq<char>,
    pub status: Status,
    pub success_count: nat,
    pub error_count: nat,
}

impl DeepView for BlockStatus {
    type V = BlockProgress;

    open spec fn deep_view(&self) -> BlockProgress {
        BlockProgress {
            block_type: self.block_type,
            name: self.name@,
            status: self.status,
            success_count: self.success_count as nat,
            error_count: self.error_count as nat,
        }
    }
}

/// The status of a run, and of each block that it has come to.
pub struct RunStatus {
    pub run: Status,
    pub blocks: Vec<BlockStatus>,
}

/// The mathematical form of a [`RunStatus`].
pub struct Progress {
    pub run: Status,
    pub blocks: Seq<BlockProgress>,
}

impl DeepView for RunStatus {
    type V = Progress;

    open spec fn deep_view(&self) -> Progress {
        Progress { run: self.run, blocks: self.blocks.deep_view() }
    }
}

/// What one execution of a block gave: a value or an error, and what the block noted
/// beside it.
pub struct BlockExecution {
    pub value: Option<JsonValue>,
    pub error: Option<String>,
    pub meta: Option<JsonValue>,
}

/// The mathematical form of a [`BlockExecution`].
pub struct Execution {
    pub value: Option<Json>,
    pub error: Option<Seq<char>>,
    pub meta: Option<Json>,
}

impl DeepView for BlockExecution {
    type V = Execution;

    open spec fn deep_view(&self) -> Execution {
        Execution {
            value: self.value.deep_view(),
            error: self.error.deep_view(),
            meta: self.meta.deep_view(),
        }
    }
}

/// The trace of one block: its executions, by input row and then by position in the map
/// scope.
pub struct Trace {
    pub block_type: BlockType,
    pub name: String,
    pub executions: Vec<Vec<BlockExecution>>,
}

/// The mathematical form of a [`Trace`].
pub struct BlockTrace {
    pub block_type: BlockType,
    pub name: Seq<char>,
    pub executions: Seq<Seq<Execution>>,
}

impl DeepView for Trace {
    type V = BlockTrace;

    open spec fn deep_view(&self) -> BlockTrace {
        BlockTrace {
            block_type: self.block_type,
            name: self.name@,
            executions: self.executions.deep_view(),
        }
    }
}

/// The mathematical form of a [`BlockConfig`].
pub struct Options {
    pub block: Seq<char>,
    pub options: Json,
}

impl DeepView for BlockConfig {
    type V = Options;

    open spec fn deep_view(&self) -> Options {
        Options { block: self.block@, options: self.options@ }
    }
}

impl DeepView for RunConfig {
    type V = Seq<Options>;

    open spec fn deep_view(&self) -> Seq<Options> {
        self.blocks.deep_view()
    }
}

/// A run.
pub struct Run {
    pub run_id: String,
    pub created: u64,
    pub app_hash: String,
    pub config: RunConfig,
    pub status: RunStatus,
    pub traces: Vec<Trace>,
}

/// The mathematical form of a [`Run`].
pub struct RunRecord {
    pub run_id: Seq<char>,
    pub created: nat,
    pub app_hash: Seq<char>,
    pub config: Seq<Options>,
    pub status: Progress,
    pub traces: Seq<BlockTrace>,
}

impl DeepView for Run {
    type V = RunRecord;

    open spec fn deep_view(&self) -> RunRecord {
        RunRecord {
            run_id: self.run_id@,
            created: self.created as nat,
            app_hash: self.app_hash@,
            config: self.config.deep_view(),
            status: self.status.deep_view(),
            traces: self.traces.deep_view(),
        }
    }
}

impl Clone for BlockStatus {
    fn clone(&self) -> (r: BlockStatus)
        ensures
            r.deep_view() == self.deep_view(),
    {
        BlockStatus {
            block_type: self.block_type,
            name: self.name.clone(),
            status: self.status,
            success_count: self.success_count,
            error_count: self.error_count,
        }
    }
}

impl Clone for RunStatus {
    fn clone(&self) -> (r: RunStatus)
        ensures
            r.deep_view() == self.deep_view(),
    {
        let blocks = self.blocks.clone();
        assert(blocks.deep_view() =~= self.blocks.deep_view()) by {
            assert forall|i: int| 0 <= i < self.blocks@.len() implies blocks@[i].deep_view()
                == self.blocks@[i].deep_view() by {
                assert(cloned::<BlockStatus>(self.blocks@[i], blocks@[i]));
            }
        }
        RunStatus { run: self.run, blocks }
    }
}

impl Clone for BlockExecution {
    fn clone(&self) -> (r: BlockExecution)
        ensures
            r.deep_view() == self.deep_view(),
    {
        BlockExecution {
            value: match &self.value {
                Some(value) => Some(value.clone()),
                None => None,
            },
            error: match &self.error {
                Some(error) => Some(error.clone()),
                None => None,
            },
            meta: match &self.meta {
                Some(meta) => Some(meta.clone()),
                None => None,
            },
        }
    }
}

/// A copy of the executions of one input row.
pub fn copy_row(row: &Vec<BlockExecution>) -> (r: Vec<BlockExecution>)
    ensures
        r.deep_view() == row.deep_view(),
{
    let r = row.clone();
    assert(r.deep_view() =~= row.deep_view()) by {
        assert forall|i: int| 0 <= i < row@.len() implies r@[i].deep_view() == row@[i].deep_view() by {
            assert(cloned::<BlockExecution>(row@[i], r@[i]));
        }
    }
    r
}

/// A copy of the executions of a block.
pub fn copy_executions(executions: &Vec<Vec<BlockExecution>>) -> (r: Vec<Vec<BlockExecution>>)
    ensures
        r.deep_view() == executions.deep_view(),
{
    let mut r: Vec<Vec<BlockExecution>> = Vec::new();
    let mut i: usize = 0;
    while i < executions.len()
        invariant
            i <= executions.len(),
            r@.len() == i,
            forall|k: int| 0 <= k < i ==> r@[k].deep_view() == executions@[k].deep_view(),
        decreases executions.len() - i,
    {
        r.push(copy_row(&executions[i]));
        i += 1;
    }
    assert(r.deep_view() =~= executions.deep_view());
    r
}

impl Clone for Trace {
    fn clone(&self) -> (r: Trace)
        ensures
            r.deep_view() == self.deep_view(),
    {
        Trace {
            block_type: self.block_type,
            name: self.name.clone(),
            executions: copy_executions(&self.executions),
        }
    }
}

impl Clone for BlockConfig {
    fn clone(&self) -> (r: BlockConfig)
        ensures
            r.deep_view() == self.deep_view(),
    {
        BlockConfig { block: self.block.clone(), options: self.options.clone() }
    }
}

impl Clone for RunConfig {
    fn clone(&self) -> (r: RunConfig)
        ensures
            r.deep_view() == self.deep_view(),
    {
        let blocks = self.blocks.clone();
        assert(blocks.deep_view() =~= self.blocks.deep_view()) by {
            assert forall|i: int| 0 <= i < self.blocks@.len() implies blocks@[i].deep_view()
                == self.blocks@[i].deep_view() by {
                assert(cloned::<BlockConfig>(self.blocks@[i], blocks@[i]));
            }
        }
        RunConfig { blocks }
    }
}

/// A copy of a list of traces.
pub fn copy_traces(traces: &Vec<Trace>) -> (r: Vec<Trace>)
    ensures
        r.deep_view() == traces.deep_view(),
{
    let r = traces.clone();
    assert(r.deep_view() =~= traces.deep_view()) by {
        assert forall|i: int| 0 <= i < traces@.len() implies r@[i].deep_view()
            == traces@[i].deep_view() by {
            assert(cloned::<Trace>(traces@[i], r@[i]));
        }
    }
    r
}

impl Clone for Run {
    fn clone(&self) -> (r: Run)
        ensures
            r.deep_view() == self.deep_view(),
    {
        Run {
            run_id: self.run_id.clone(),
            created: self.created,
            app_hash: self.app_hash.clone(),
            config: self.config.clone(),
            status: self.status.clone(),
            traces: copy_traces(&self.traces),
        }
    }
}

} // verus!
