//! Stores: what persists projects, datasets, specifications, runs and caches. The module
//! holds what a store contains in mathematical form, what each operation makes of it, and
//! the interface that a store offers.

use crate::blocks::block::{BlockType, RunConfig};
use crate::data::{Data, Dataset};
use crate::http::{HttpRequest, HttpResponse, Request, Response};
use crate::llm::{Generation, LLMGeneration, LLMRequest, Prompting};
use crate::project::Project;
use crate::run::{BlockTrace, Options, Progress, Run, RunRecord, RunStatus};
use vstd::prelude::*;

verus! {

/// A dataset as a store holds it.
pub struct StoredDataset {
    pub project: int,
    pub created: nat,
    pub dataset: Dataset,
}

/// A specification as a store holds it.
pub struct StoredSpecification {
    pub project: int,
    pub hash: Seq<char>,
    pub text: Seq<char>,
}

/// A run as a store holds it. Its traces are those that were appended, in that order.
pub struct StoredRun {
    pub project: int,
    pub run: RunRecord,
}

/// A generation in the cache of language models.
pub struct CachedGeneration {
    pub project: int,
    pub request: Prompting,
    pub generation: Generation,
}

/// A response in the cache of requests.
pub struct CachedResponse {
    pub project: int,
    pub request: Request,
    pub response: Response,
}

/// What a store contains. Each list is in the order in which its entries came.
pub struct Contents {
    /// The identifier of the project that was created last.
    pub last_project: int,
    pub datasets: Seq<StoredDataset>,
    pub specifications: Seq<StoredSpecification>,
    pub runs: Seq<StoredRun>,
    pub generations: Seq<CachedGeneration>,
    pub responses: Seq<CachedResponse>,
}

/// Which traces of a run to load: all, none, or those of one block.
pub enum TraceFilter {
    All,
    Nothing,
    Block { block_type: BlockType, name: Seq<char> },
}

/// The last dataset that `wanted` holds of.
pub open spec fn last_dataset(rows: Seq<StoredDataset>, wanted: spec_fn(StoredDataset) -> bool) -> Option<
    StoredDataset,
>
    decreases rows.len(),
{
    if rows.len() == 0 {
        None
    } else if wanted(rows.last()) {
        Some(rows.last())
    } else {
        last_dataset(rows.drop_last(), wanted)
    }
}

/// The last specification of a project.
pub open spec fn last_specification(rows: Seq<StoredSpecification>, project: int) -> Option<
    StoredSpecification,
>
    decreases rows.len(),
{
    if rows.len() == 0 {
        None
    } else if rows.last().project == project {
        Some(rows.last())
    } else {
        last_specification(rows.drop_last(), project)
    }
}

/// The last run that `wanted` holds of.
pub open spec fn last_run(rows: Seq<StoredRun>, wanted: spec_fn(StoredRun) -> bool) -> Option<
    StoredRun,
>
    decreases rows.len(),
{
    if rows.len() == 0 {
        None
    } else if wanted(rows.last()) {
        Some(rows.last())
    } else {
        last_run(rows.drop_last(), wanted)
    }
}

/// The traces of one block among those of a run.
pub open spec fn traces_of(traces: Seq<BlockTrace>, block_type: BlockType, name: Seq<char>) -> Seq<
    BlockTrace,
> {
    traces.filter(|t: BlockTrace| t.block_type == block_type && t.name == name)
}

/// The traces that a filter lets through.
pub open spec fn filtered(traces: Seq<BlockTrace>, filter: TraceFilter) -> Seq<BlockTrace> {
    match filter {
        TraceFilter::All => traces,
        TraceFilter::Nothing => Seq::empty(),
        TraceFilter::Block { block_type, name } => traces_of(traces, block_type, name),
    }
}

impl Contents {
    /// The version `hash` of the dataset `id` of a project, if the store holds it.
    pub open spec fn dataset(self, project: int, id: Seq<char>, hash: Seq<char>) -> Option<
        StoredDataset,
    > {
        last_dataset(
            self.datasets,
            |row: StoredDataset|
                row.project == project && row.dataset.id == id && row.dataset.hash == hash,
        )
    }

    /// The version of the dataset `id` of a project that was registered last.
    pub open spec fn latest_dataset(self, project: int, id: Seq<char>) -> Option<StoredDataset> {
        last_dataset(
            self.datasets,
            |row: StoredDataset| row.project == project && row.dataset.id == id,
        )
    }

    /// The datasets of a project, in the order in which they were registered.
    pub open spec fn datasets_of(self, project: int) -> Seq<StoredDataset> {
        self.datasets.filter(|row: StoredDataset| row.project == project)
    }

    /// The store after a dataset is registered: it is added, unless the store holds that
    /// version of that dataset of that project already.
    pub open spec fn register_dataset(self, project: int, created: nat, dataset: Dataset) -> Contents {
        if self.dataset(project, dataset.id, dataset.hash) is Some {
            self
        } else {
            Contents {
                datasets: self.datasets.push(StoredDataset { project, created, dataset }),
                ..self
            }
        }
    }

    /// The records that the store holds, of all datasets together.
    pub open spec fn points(self) -> Set<crate::json::Json> {
        Set::new(
            |point: crate::json::Json|
                exists|i: int, j: int|
                    0 <= i < self.datasets.len() && 0 <= j < self.datasets[i].dataset.points.len()
                        && #[trigger] self.datasets[i].dataset.points[j] == point,
        )
    }

    /// The store after a specification is registered.
    pub open spec fn register_specification(
        self,
        project: int,
        hash: Seq<char>,
        text: Seq<char>,
    ) -> Contents {
        Contents {
            specifications: self.specifications.push(StoredSpecification { project, hash, text }),
            ..self
        }
    }

    /// The run with the given identifier, if the store holds one.
    pub open spec fn run(self, run_id: Seq<char>) -> Option<StoredRun> {
        last_run(self.runs, |row: StoredRun| row.run.run_id == run_id)
    }

    /// The run of a project that was created last.
    pub open spec fn latest_run(self, project: int) -> Option<StoredRun> {
        last_run(self.runs, |row: StoredRun| row.project == project)
    }

    /// The runs of a project, in the order in which they were created.
    pub open spec fn runs_of(self, project: int) -> Seq<StoredRun> {
        self.runs.filter(|row: StoredRun| row.project == project)
    }

    /// No two runs of the store have the same identifier.
    pub open spec fn run_ids_unique(self) -> bool {
        forall|i: int, j: int|
            0 <= i < j < self.runs.len() ==> (#[trigger] self.runs[i]).run.run_id
                != (#[trigger] self.runs[j]).run.run_id
    }

    /// The store after a run is created, without traces.
    pub open spec fn create_run(self, project: int, run: RunRecord) -> Contents {
        Contents {
            runs: self.runs.push(StoredRun { project, run: RunRecord { traces: Seq::empty(), ..run } }),
            ..self
        }
    }

    /// The store after each run of the project with the given identifier is changed by
    /// `change`.
    pub open spec fn change_run(
        self,
        project: int,
        run_id: Seq<char>,
        change: spec_fn(RunRecord) -> RunRecord,
    ) -> Contents {
        Contents {
            runs: Seq::new(
                self.runs.len(),
                |i: int|
                    if self.runs[i].project == project && self.runs[i].run.run_id == run_id {
                        StoredRun { project, run: change(self.runs[i].run) }
                    } else {
                        self.runs[i]
                    },
            ),
            ..self
        }
    }

    /// The store after the status of a run is updated.
    pub open spec fn update_run_status(self, project: int, run_id: Seq<char>, status: Progress) -> Contents {
        self.change_run(project, run_id, |run: RunRecord| RunRecord { status, ..run })
    }

    /// The store after the trace of a block is appended to a run.
    pub open spec fn append_run_block(self, project: int, run_id: Seq<char>, trace: BlockTrace) -> Contents {
        self.change_run(
            project,
            run_id,
            |run: RunRecord| RunRecord { traces: run.traces.push(trace), ..run },
        )
    }

    /// The run of a project with the given identifier, with the traces that the filter lets
    /// through.
    pub open spec fn load_run(self, project: int, run_id: Seq<char>, filter: TraceFilter) -> Option<
        RunRecord,
    > {
        match last_run(
            self.runs,
            |row: StoredRun| row.project == project && row.run.run_id == run_id,
        ) {
            Some(row) => Some(RunRecord { traces: filtered(row.run.traces, filter), ..row.run }),
            None => None,
        }
    }

    /// The generations that the cache of a project holds for a request, oldest first.
    pub open spec fn generations_for(self, project: int, request: Prompting) -> Seq<Generation> {
        self.generations.filter(
            |row: CachedGeneration| row.project == project && row.request == request,
        ).map_values(|row: CachedGeneration| row.generation)
    }

    /// The store after a generation is cached.
    pub open spec fn cache_generation(
        self,
        project: int,
        request: Prompting,
        generation: Generation,
    ) -> Contents {
        Contents {
            generations: self.generations.push(CachedGeneration { project, request, generation }),
            ..self
        }
    }

    /// The responses that the cache of a project holds for a request, oldest first.
    pub open spec fn responses_for(self, project: int, request: Request) -> Seq<Response> {
        self.responses.filter(
            |row: CachedResponse| row.project == project && row.request == request,
        ).map_values(|row: CachedResponse| row.response)
    }

    /// The store after a response is cached.
    pub open spec fn cache_response(self, project: int, request: Request, response: Response) -> Contents {
        Contents {
            responses: self.responses.push(CachedResponse { project, request, response }),
            ..self
        }
    }
}

proof fn lemma_last_dataset_wanted(rows: Seq<StoredDataset>, wanted: spec_fn(StoredDataset) -> bool)
    ensures
        last_dataset(rows, wanted) matches Some(row) ==> wanted(row) && rows.contains(row),
        last_dataset(rows, wanted) is None ==> forall|i: int|
            0 <= i < rows.len() ==> !wanted(#[trigger] rows[i]),
    decreases rows.len(),
{
    if rows.len() > 0 {
        lemma_last_dataset_wanted(rows.drop_last(), wanted);
        if !wanted(rows.last()) {
            if last_dataset(rows, wanted) is Some {
                let row = last_dataset(rows, wanted)->0;
                let i = choose|i: int| 0 <= i < rows.drop_last().len() && rows.drop_last()[i] == row;
                assert(rows[i] == row);
            } else {
                assert forall|i: int| 0 <= i < rows.len() implies !wanted(#[trigger] rows[i]) by {
                    if i < rows.len() - 1 {
                        assert(rows.drop_last()[i] == rows[i]);
                    }
                }
            }
        } else {
            assert(rows[rows.len() - 1] == rows.last());
        }
    }
}

/// The position of the run that `last_run` finds: the last of which `wanted` holds.
proof fn lemma_last_run_position(rows: Seq<StoredRun>, wanted: spec_fn(StoredRun) -> bool) -> (k: int)
    ensures
        last_run(rows, wanted) is Some ==> 0 <= k < rows.len() && last_run(rows, wanted) == Some(
            rows[k],
        ) && wanted(rows[k]),
        last_run(rows, wanted) is None ==> k == -1,
        forall|j: int| k < j < rows.len() ==> !wanted(#[trigger] rows[j]),
    decreases rows.len(),
{
    if rows.len() == 0 {
        -1
    } else if wanted(rows.last()) {
        rows.len() - 1
    } else {
        let k = lemma_last_run_position(rows.drop_last(), wanted);
        assert forall|j: int| k < j < rows.len() implies !wanted(#[trigger] rows[j]) by {
            if j < rows.len() - 1 {
                assert(rows.drop_last()[j] == rows[j]);
            }
        }
        if k >= 0 {
            assert(rows.drop_last()[k] == rows[k]);
        }
        k
    }
}

/// The run at a position after which `wanted` holds of none is the one that `last_run`
/// finds.
proof fn lemma_last_run_at(rows: Seq<StoredRun>, wanted: spec_fn(StoredRun) -> bool, k: int)
    requires
        -1 <= k < rows.len(),
        k >= 0 ==> wanted(rows[k]),
        forall|j: int| k < j < rows.len() ==> !wanted(#[trigger] rows[j]),
    ensures
        k >= 0 ==> last_run(rows, wanted) == Some(rows[k]),
        k == -1 ==> last_run(rows, wanted) is None,
    decreases rows.len(),
{
    if rows.len() > 0 && k < rows.len() - 1 {
        assert(!wanted(rows[rows.len() - 1]));
        assert forall|j: int| k < j < rows.drop_last().len() implies !wanted(
            #[trigger] rows.drop_last()[j],
        ) by {
            assert(rows.drop_last()[j] == rows[j]);
        }
        if k >= 0 {
            assert(rows.drop_last()[k] == rows[k]);
        }
        lemma_last_run_at(rows.drop_last(), wanted, k);
    }
}

/// Registering a dataset twice is registering it once: the second time the store stays as
/// it is, and so do the records that it holds.
pub proof fn register_dataset_twice(
    contents: Contents,
    project: int,
    first: nat,
    second: nat,
    dataset: Dataset,
)
    ensures
        contents.register_dataset(project, first, dataset).register_dataset(
            project,
            second,
            dataset,
        ) == contents.register_dataset(project, first, dataset),
        contents.register_dataset(project, first, dataset).register_dataset(
            project,
            second,
            dataset,
        ).points() == contents.register_dataset(project, first, dataset).points(),
{
    let once = contents.register_dataset(project, first, dataset);
    if contents.dataset(project, dataset.id, dataset.hash) is None {
        assert(once.datasets.last() == StoredDataset { project, created: first, dataset });
    }
    assert(once.dataset(project, dataset.id, dataset.hash) is Some);
}

/// A dataset that was registered is loaded under its name and hash. Where the store held
/// nothing under them before, what is loaded is the dataset that was registered, record
/// for record.
pub proof fn registered_dataset_loads(contents: Contents, project: int, created: nat, dataset: Dataset)
    ensures
        contents.register_dataset(project, created, dataset).dataset(
            project,
            dataset.id,
            dataset.hash,
        ) is Some,
        contents.dataset(project, dataset.id, dataset.hash) is None ==> contents.register_dataset(
            project,
            created,
            dataset,
        ).dataset(project, dataset.id, dataset.hash) == Some(
            StoredDataset { project, created, dataset },
        ),
        contents.register_dataset(project, created, dataset).latest_dataset(project, dataset.id)
            is Some,
{
    let after = contents.register_dataset(project, created, dataset);
    let by_hash = |row: StoredDataset|
        row.project == project && row.dataset.id == dataset.id && row.dataset.hash == dataset.hash;
    let by_id = |row: StoredDataset| row.project == project && row.dataset.id == dataset.id;
    if contents.dataset(project, dataset.id, dataset.hash) is None {
        assert(after.datasets.last() == StoredDataset { project, created, dataset });
    } else {
        lemma_last_dataset_wanted(contents.datasets, by_hash);
        lemma_last_dataset_wanted(contents.datasets, by_id);
        let row = contents.dataset(project, dataset.id, dataset.hash)->0;
        if last_dataset(contents.datasets, by_id) is None {
            let i = choose|i: int| 0 <= i < contents.datasets.len() && contents.datasets[i] == row;
            assert(by_id(contents.datasets[i]));
        }
    }
}

/// No two runs of a store have the same identifier: a run that is created under an
/// identifier that no run has keeps it so.
pub proof fn created_run_is_unique(contents: Contents, project: int, run: RunRecord)
    requires
        contents.run_ids_unique(),
        contents.run(run.run_id) is None,
    ensures
        contents.create_run(project, run).run_ids_unique(),
        contents.create_run(project, run).run(run.run_id) is Some,
{
    let wanted = |row: StoredRun| row.run.run_id == run.run_id;
    let k = lemma_last_run_position(contents.runs, wanted);
    let after = contents.create_run(project, run);
    assert forall|i: int, j: int| 0 <= i < j < after.runs.len() implies (#[trigger] after.runs[i]).run.run_id
        != (#[trigger] after.runs[j]).run.run_id by {
        if j == contents.runs.len() {
            assert(!wanted(contents.runs[i]));
        } else {
            assert(after.runs[i] == contents.runs[i]);
            assert(after.runs[j] == contents.runs[j]);
        }
    }
    assert(wanted(after.runs.last()));
}

/// Updating the status of a run, or appending a trace to it, leaves the identifiers of the
/// runs as they are: where no two were the same, no two are.
pub proof fn changed_run_keeps_ids_unique(
    contents: Contents,
    project: int,
    run_id: Seq<char>,
    status: Progress,
    trace: BlockTrace,
)
    requires
        contents.run_ids_unique(),
    ensures
        contents.update_run_status(project, run_id, status).run_ids_unique(),
        contents.append_run_block(project, run_id, trace).run_ids_unique(),
{
    let updated = contents.update_run_status(project, run_id, status);
    assert forall|i: int, j: int| 0 <= i < j < updated.runs.len() implies (
    #[trigger] updated.runs[i]).run.run_id != (#[trigger] updated.runs[j]).run.run_id by {
        assert(updated.runs[i].run.run_id == contents.runs[i].run.run_id);
        assert(updated.runs[j].run.run_id == contents.runs[j].run.run_id);
    }
    let appended = contents.append_run_block(project, run_id, trace);
    assert forall|i: int, j: int| 0 <= i < j < appended.runs.len() implies (
    #[trigger] appended.runs[i]).run.run_id != (#[trigger] appended.runs[j]).run.run_id by {
        assert(appended.runs[i].run.run_id == contents.runs[i].run.run_id);
        assert(appended.runs[j].run.run_id == contents.runs[j].run.run_id);
    }
}

/// A trace that was appended to a run is loaded with the run when the traces of its block
/// are asked for: it is the last of them, and the only one where the run held no trace of
/// that block before.
pub proof fn appended_block_loads(contents: Contents, project: int, run_id: Seq<char>, trace: BlockTrace)
    requires
        contents.load_run(project, run_id, TraceFilter::All) is Some,
    ensures
        ({
            let block = TraceFilter::Block { block_type: trace.block_type, name: trace.name };
            let before = contents.load_run(project, run_id, block)->0;
            let after = contents.append_run_block(project, run_id, trace).load_run(
                project,
                run_id,
                block,
            );
            &&& after is Some
            &&& after->0.traces == before.traces.push(trace)
            &&& after->0.traces.last() == trace
            &&& after->0.run_id == run_id
            &&& after->0.status == before.status
        }),
{
    let wanted = |row: StoredRun| row.project == project && row.run.run_id == run_id;
    let k = lemma_last_run_position(contents.runs, wanted);
    let appended = contents.append_run_block(project, run_id, trace);
    assert forall|j: int| k < j < appended.runs.len() implies !wanted(#[trigger] appended.runs[j]) by {
        assert(!wanted(contents.runs[j]));
    }
    lemma_last_run_at(appended.runs, wanted, k);
    let of_block = |t: BlockTrace| t.block_type == trace.block_type && t.name == trace.name;
    let old_traces = contents.runs[k].run.traces;
    assert(appended.runs[k].run.traces == old_traces.push(trace));
    assert(old_traces.push(trace).filter(of_block) == old_traces.filter(of_block).push(trace)) by {
        reveal(Seq::filter);
        assert(old_traces.push(trace).drop_last() == old_traces);
    }
}

/// What was cached last for a request is what the cache of the project answers it with:
/// once a generation or a response is cached, the cache holds an answer for the request, and
/// the last of its answers is that one.
pub proof fn cached_last_is_found(
    contents: Contents,
    project: int,
    prompting: Prompting,
    generation: Generation,
    request: Request,
    response: Response,
)
    ensures
        contents.cache_generation(project, prompting, generation).generations_for(
            project,
            prompting,
        ).len() > 0,
        contents.cache_generation(project, prompting, generation).generations_for(
            project,
            prompting,
        ).last() == generation,
        contents.cache_response(project, request, response).responses_for(project, request).len()
            > 0,
        contents.cache_response(project, request, response).responses_for(
            project,
            request,
        ).last() == response,
{
    reveal(Seq::filter);
    let generations = contents.cache_generation(project, prompting, generation).generations;
    assert(generations.drop_last() == contents.generations);
    assert(generations.last() == CachedGeneration { project, request: prompting, generation });
    let responses = contents.cache_response(project, request, response).responses;
    assert(responses.drop_last() == contents.responses);
    assert(responses.last() == CachedResponse { project, request, response });
}

/// Why an operation of a store failed; the message is the store's.
#[derive(Debug, PartialEq, Eq)]
pub struct StoreError {
    pub message: String,
}

/// One version of a dataset, as a store lists it.
pub struct DatasetVersion {
    pub dataset_id: String,
    pub hash: String,
    pub created: u64,
}

/// The mathematical form of a [`DatasetVersion`].
pub struct Version {
    pub dataset_id: Seq<char>,
    pub hash: Seq<char>,
    pub created: nat,
}

impl DeepView for DatasetVersion {
    type V = Version;

    open spec fn deep_view(&self) -> Version {
        Version { dataset_id: self.dataset_id@, hash: self.hash@, created: self.created as nat }
    }
}

/// One run, as a store lists it.
pub struct RunSummary {
    pub run_id: String,
    pub created: u64,
    pub app_hash: String,
    pub config: RunConfig,
}

/// The mathematical form of a [`RunSummary`].
pub struct Summary {
    pub run_id: Seq<char>,
    pub created: nat,
    pub app_hash: Seq<char>,
    pub config: Seq<Options>,
}

impl DeepView for RunSummary {
    type V = Summary;

    open spec fn deep_view(&self) -> Summary {
        Summary {
            run_id: self.run_id@,
            created: self.created as nat,
            app_hash: self.app_hash@,
            config: self.config.deep_view(),
        }
    }
}

/// Which traces of a run to load.
pub enum BlockFilter {
    /// All of them.
    All,
    /// None of them.
    Nothing,
    /// Those of one block.
    Block { block_type: BlockType, name: String },
}

impl DeepView for BlockFilter {
    type V = TraceFilter;

    open spec fn deep_view(&self) -> TraceFilter {
        match self {
            BlockFilter::All => TraceFilter::All,
            BlockFilter::Nothing => TraceFilter::Nothing,
            BlockFilter::Block { block_type, name } => TraceFilter::Block {
                block_type: *block_type,
                name: name@,
            },
        }
    }
}

/// The hash of a stored dataset, if there is one.
pub open spec fn hash_of(row: Option<StoredDataset>) -> Option<Seq<char>> {
    match row {
        Some(row) => Some(row.dataset.hash),
        None => None,
    }
}

/// The dataset of a stored dataset, if there is one.
pub open spec fn dataset_of(row: Option<StoredDataset>) -> Option<Dataset> {
    match row {
        Some(row) => Some(row.dataset),
        None => None,
    }
}

/// The identifier of a stored run, if there is one.
pub open spec fn run_id_of(row: Option<StoredRun>) -> Option<Seq<char>> {
    match row {
        Some(row) => Some(row.run.run_id),
        None => None,
    }
}

/// The hash of a stored specification, if there is one.
pub open spec fn specification_hash_of(row: Option<StoredSpecification>) -> Option<Seq<char>> {
    match row {
        Some(row) => Some(row.hash),
        None => None,
    }
}

/// What a store offers. An operation that fails leaves the store as it was; one that
/// succeeds makes of its contents what the contract says. Whether an operation succeeds is
/// for the store to say, except that a run is created only under an identifier that no run
/// of the store has.
pub trait Store {
    /// What the store contains. Of a store that does not say, nothing is known, and so
    /// nothing can be proved of its operations.
    open spec fn contents(&self) -> Contents {
        arbitrary()
    }

    /// Creates a project. Its identifier is above those of all projects before it.
    fn create_project(&mut self) -> (r: Result<Project, StoreError>)
        ensures
            match r {
                Ok(project) => project@ > old(self).contents().last_project
                    && final(self).contents() == (Contents {
                    last_project: project@,
                    ..old(self).contents()
                }),
                Err(_) => final(self).contents() == old(self).contents(),
            },
    ;

    /// The hash of the version of a dataset that was registered last.
    fn latest_dataset_hash(&self, project: &Project, dataset_id: &str) -> (r: Result<
        Option<String>,
        StoreError,
    >)
        ensures
            r matches Ok(hash) ==> hash.deep_view() == hash_of(
                self.contents().latest_dataset(project@, dataset_id@),
            ),
    ;

    /// Registers a dataset, at the time `created`.
    fn register_dataset(&mut self, project: &Project, d: &Data, created: u64) -> (r: Result<
        (),
        StoreError,
    >)
        ensures
            match r {
                Ok(_) => final(self).contents() == old(self).contents().register_dataset(
                    project@,
                    created as nat,
                    d@,
                ),
                Err(_) => final(self).contents() == old(self).contents(),
            },
    ;

    /// Loads one version of a dataset.
    fn load_dataset(&self, project: &Project, dataset_id: &str, hash: &str) -> (r: Result<
        Option<Data>,
        StoreError,
    >)
        ensures
            r matches Ok(found) ==> found.deep_view() == dataset_of(
                self.contents().dataset(project@, dataset_id@, hash@),
            ),
    ;

    /// Lists the versions of the datasets of a project, in the order in which they were
    /// registered.
    fn list_datasets(&self, project: &Project) -> (r: Result<Vec<DatasetVersion>, StoreError>)
        ensures
            r matches Ok(list) ==> list.deep_view() == self.contents().datasets_of(
                project@,
            ).map_values(
                |row: StoredDataset|
                    Version {
                        dataset_id: row.dataset.id,
                        hash: row.dataset.hash,
                        created: row.created,
                    },
            ),
    ;

    /// The hash of the specification of a project that was registered last.
    fn latest_specification_hash(&self, project: &Project) -> (r: Result<
        Option<String>,
        StoreError,
    >)
        ensures
            r matches Ok(hash) ==> hash.deep_view() == specification_hash_of(
                last_specification(self.contents().specifications, project@),
            ),
    ;

    /// Registers a specification.
    fn register_specification(&mut self, project: &Project, hash: &str, spec: &str) -> (r: Result<
        (),
        StoreError,
    >)
        ensures
            match r {
                Ok(_) => final(self).contents() == old(self).contents().register_specification(
                    project@,
                    hash@,
                    spec@,
                ),
                Err(_) => final(self).contents() == old(self).contents(),
            },
    ;

    /// The identifier of the run of a project that was created last.
    fn latest_run_id(&self, project: &Project) -> (r: Result<Option<String>, StoreError>)
        ensures
            r matches Ok(id) ==> id.deep_view() == run_id_of(
                self.contents().latest_run(project@),
            ),
    ;

    /// Lists the runs of a project, in the order in which they were created.
    fn all_runs(&self, project: &Project) -> (r: Result<Vec<RunSummary>, StoreError>)
        ensures
            r matches Ok(list) ==> list.deep_view() == self.contents().runs_of(
                project@,
            ).map_values(
                |row: StoredRun|
                    Summary {
                        run_id: row.run.run_id,
                        created: row.run.created,
                        app_hash: row.run.app_hash,
                        config: row.run.config,
                    },
            ),
    ;

    /// Creates a run, without its traces. It fails where a run of the store has that
    /// identifier already.
    fn create_run_empty(&mut self, project: &Project, run: &Run) -> (r: Result<(), StoreError>)
        ensures
            match r {
                Ok(_) => old(self).contents().run(run.run_id@) is None && final(self).contents()
                    == old(self).contents().create_run(project@, run.deep_view()),
                Err(_) => final(self).contents() == old(self).contents(),
            },
    ;

    /// Updates the status of a run.
    fn update_run_status(&mut self, project: &Project, run_id: &str, run_status: &RunStatus) -> (r:
        Result<(), StoreError>)
        ensures
            match r {
                Ok(_) => final(self).contents() == old(self).contents().update_run_status(
                    project@,
                    run_id@,
                    run_status.deep_view(),
                ),
                Err(_) => final(self).contents() == old(self).contents(),
            },
    ;

    /// Appends to a stored run the executions that `run` holds for the block at `block_idx`,
    /// as the trace of the block of the given type and name.
    fn append_run_block(
        &mut self,
        project: &Project,
        run: &Run,
        block_idx: usize,
        block_type: &BlockType,
        block_name: &String,
    ) -> (r: Result<(), StoreError>)
        requires
            block_idx < run.traces@.len(),
        ensures
            match r {
                Ok(_) => final(self).contents() == old(self).contents().append_run_block(
                    project@,
                    run.run_id@,
                    BlockTrace {
                        block_type: *block_type,
                        name: block_name@,
                        executions: run.traces@[block_idx as int].executions.deep_view(),
                    },
                ),
                Err(_) => final(self).contents() == old(self).contents(),
            },
    ;

    /// Loads a run, with the traces that the filter lets through.
    fn load_run(&self, project: &Project, run_id: &str, block: &BlockFilter) -> (r: Result<
        Option<Run>,
        StoreError,
    >)
        ensures
            r matches Ok(found) ==> found.deep_view() == self.contents().load_run(
                project@,
                run_id@,
                block.deep_view(),
            ),
    ;

    /// The generations that are cached for a request, oldest first.
    fn llm_cache_get(&self, project: &Project, request: &LLMRequest) -> (r: Result<
        Vec<LLMGeneration>,
        StoreError,
    >)
        ensures
            r matches Ok(list) ==> list.deep_view() == self.contents().generations_for(
                project@,
                request.deep_view(),
            ),
    ;

    /// Caches a generation for a request.
    fn llm_cache_store(
        &mut self,
        project: &Project,
        request: &LLMRequest,
        generation: &LLMGeneration,
    ) -> (r: Result<(), StoreError>)
        ensures
            match r {
                Ok(_) => final(self).contents() == old(self).contents().cache_generation(
                    project@,
                    request.deep_view(),
                    generation.deep_view(),
                ),
                Err(_) => final(self).contents() == old(self).contents(),
            },
    ;

    /// The responses that are cached for a request, oldest first.
    fn http_cache_get(&self, project: &Project, request: &HttpRequest) -> (r: Result<
        Vec<HttpResponse>,
        StoreError,
    >)
        ensures
            r matches Ok(list) ==> list.deep_view() == self.contents().responses_for(
                project@,
                request.deep_view(),
            ),
    ;

    /// Caches a response for a request.
    fn http_cache_store(
        &mut self,
        project: &Project,
        request: &HttpRequest,
        response: &HttpResponse,
    ) -> (r: Result<(), StoreError>)
        ensures
            match r {
                Ok(_) => final(self).contents() == old(self).contents().cache_response(
                    project@,
                    request.deep_view(),
                    response.deep_view(),
                ),
                Err(_) => final(self).contents() == old(self).contents(),
            },
    ;
}

} // verus!
