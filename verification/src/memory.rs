//! A store that keeps everything in memory.

use crate::blocks::block::BlockType;
use crate::data::Data;
use crate::http::{HttpRequest, HttpResponse};
use crate::llm::{LLMGeneration, LLMRequest};
use crate::project::Project;
use crate::run::{copy_executions, Run, RunStatus, Trace};
use crate::store::{
    last_dataset, last_run, last_specification, BlockFilter, CachedGeneration, CachedResponse,
    Contents, DatasetVersion, RunSummary, Store, StoreError, StoredDataset, StoredRun,
    StoredSpecification, Summary, Version,
};
use crate::text::same_text;
use vstd::prelude::*;
use vstd::string::StringExecFns;

verus! {

struct DatasetRow {
    project: Project,
    created: u64,
    data: Data,
}

impl DeepView for DatasetRow {
    type V = StoredDataset;

    closed spec fn deep_view(&self) -> StoredDataset {
        StoredDataset { project: self.project@, created: self.created as nat, dataset: self.data@ }
    }
}

struct SpecificationRow {
    project: Project,
    hash: String,
    text: String,
}

impl DeepView for SpecificationRow {
    type V = StoredSpecification;

    closed spec fn deep_view(&self) -> StoredSpecification {
        StoredSpecification { project: self.project@, hash: self.hash@, text: self.text@ }
    }
}

struct RunRow {
    project: Project,
    run: Run,
}

impl DeepView for RunRow {
    type V = StoredRun;

    closed spec fn deep_view(&self) -> StoredRun {
        StoredRun { project: self.project@, run: self.run.deep_view() }
    }
}

struct GenerationRow {
    project: Project,
    request: LLMRequest,
    generation: LLMGeneration,
}

impl DeepView for GenerationRow {
    type V = CachedGeneration;

    closed spec fn deep_view(&self) -> CachedGeneration {
        CachedGeneration {
            project: self.project@,
            request: self.request.deep_view(),
            generation: self.generation.deep_view(),
        }
    }
}

struct ResponseRow {
    project: Project,
    request: HttpRequest,
    response: HttpResponse,
}

impl DeepView for ResponseRow {
    type V = CachedResponse;

    closed spec fn deep_view(&self) -> CachedResponse {
        CachedResponse {
            project: self.project@,
            request: self.request.deep_view(),
            response: self.response.deep_view(),
        }
    }
}

/// A store that keeps everything in memory. Its operations fail only where the contract of
/// a store makes them: a project beyond the last identifier, a run under an identifier that
/// is taken.
pub struct MemoryStore {
    last_project: i64,
    datasets: Vec<DatasetRow>,
    specifications: Vec<SpecificationRow>,
    runs: Vec<RunRow>,
    generations: Vec<GenerationRow>,
    responses: Vec<ResponseRow>,
}

/// The error of an operation that this store refuses, with the reason as its message.
fn failure(message: &str) -> (e: StoreError)
    ensures
        e.message@ == message@,
{
    StoreError { message: String::from_str(message) }
}

/// The position of the last dataset of a project under a name, and under a hash where one
/// is given. `wanted` says the same in mathematical form.
fn find_dataset(
    rows: &Vec<DatasetRow>,
    project: &Project,
    id: &str,
    hash: Option<&str>,
    Ghost(wanted): Ghost<spec_fn(StoredDataset) -> bool>,
) -> (r: Option<usize>)
    requires
        forall|row: StoredDataset|
            #[trigger] wanted(row) == (row.project == project@ && row.dataset.id == id@ && (hash matches Some(
                h,
            ) ==> row.dataset.hash == h@)),
    ensures
        match r {
            Some(k) => k < rows@.len() && last_dataset(rows.deep_view(), wanted) == Some(
                rows@[k as int].deep_view(),
            ) && wanted(rows@[k as int].deep_view()),
            None => last_dataset(rows.deep_view(), wanted) is None,
        },
{
    let ghost all = rows.deep_view();
    let mut i: usize = rows.len();
    assert(all.take(i as int) == all);
    while i > 0
        invariant
            i <= rows.len(),
            all == rows.deep_view(),
            forall|row: StoredDataset|
                #[trigger] wanted(row) == (row.project == project@ && row.dataset.id == id@ && (
                hash matches Some(h) ==> row.dataset.hash == h@)),
            last_dataset(all, wanted) == last_dataset(all.take(i as int), wanted),
        decreases i,
    {
        i -= 1;
        let row = &rows[i];
        proof {
            assert(all.take(i + 1).last() == rows@[i as int].deep_view());
            assert(all.take(i + 1).drop_last() == all.take(i as int));
        }
        let hash_fits = match hash {
            Some(h) => same_text(row.data.hash().as_str(), h),
            None => true,
        };
        if row.project.project_id() == project.project_id() && same_text(row.data.id().as_str(), id)
            && hash_fits {
            return Some(i);
        }
    }
    None
}

/// The position of the last run of a project where one is given, under an identifier where
/// one is given. `wanted` says the same in mathematical form.
fn find_run(
    rows: &Vec<RunRow>,
    project: Option<&Project>,
    run_id: Option<&str>,
    Ghost(wanted): Ghost<spec_fn(StoredRun) -> bool>,
) -> (r: Option<usize>)
    requires
        forall|row: StoredRun|
            #[trigger] wanted(row) == ((project matches Some(p) ==> row.project == p@) && (
            run_id matches Some(id) ==> row.run.run_id == id@)),
    ensures
        match r {
            Some(k) => k < rows@.len() && last_run(rows.deep_view(), wanted) == Some(
                rows@[k as int].deep_view(),
            ) && wanted(rows@[k as int].deep_view()),
            None => last_run(rows.deep_view(), wanted) is None,
        },
{
    let ghost all = rows.deep_view();
    let mut i: usize = rows.len();
    assert(all.take(i as int) == all);
    while i > 0
        invariant
            i <= rows.len(),
            all == rows.deep_view(),
            forall|row: StoredRun|
                #[trigger] wanted(row) == ((project matches Some(p) ==> row.project == p@) && (
                run_id matches Some(id) ==> row.run.run_id == id@)),
            last_run(all, wanted) == last_run(all.take(i as int), wanted),
        decreases i,
    {
        i -= 1;
        let row = &rows[i];
        proof {
            assert(all.take(i + 1).last() == rows@[i as int].deep_view());
            assert(all.take(i + 1).drop_last() == all.take(i as int));
        }
        let project_fits = match project {
            Some(p) => row.project.project_id() == p.project_id(),
            None => true,
        };
        let id_fits = match run_id {
            Some(id) => same_text(row.run.run_id.as_str(), id),
            None => true,
        };
        if project_fits && id_fits {
            return Some(i);
        }
    }
    None
}

impl MemoryStore {
    /// A store that holds nothing.
    pub fn new() -> (store: MemoryStore)
        ensures
            store.contents() == (Contents {
                last_project: 0,
                datasets: Seq::empty(),
                specifications: Seq::empty(),
                runs: Seq::empty(),
                generations: Seq::empty(),
                responses: Seq::empty(),
            }),
    {
        let store = MemoryStore {
            last_project: 0,
            datasets: Vec::new(),
            specifications: Vec::new(),
            runs: Vec::new(),
            generations: Vec::new(),
            responses: Vec::new(),
        };
        proof {
            assert(store.datasets.deep_view() =~= Seq::empty());
            assert(store.specifications.deep_view() =~= Seq::empty());
            assert(store.runs.deep_view() =~= Seq::empty());
            assert(store.generations.deep_view() =~= Seq::empty());
            assert(store.responses.deep_view() =~= Seq::empty());
        }
        store
    }
}

impl Store for MemoryStore {
    closed spec fn contents(&self) -> Contents {
        Contents {
            last_project: self.last_project as int,
            datasets: self.datasets.deep_view(),
            specifications: self.specifications.deep_view(),
            runs: self.runs.deep_view(),
            generations: self.generations.deep_view(),
            responses: self.responses.deep_view(),
        }
    }

    fn create_project(&mut self) -> (r: Result<Project, StoreError>)
        ensures
            r is Ok <==> old(self).contents().last_project < i64::MAX,
    {
        if self.last_project == i64::MAX {
            return Err(failure("No project identifier is left"));
        }
        self.last_project = self.last_project + 1;
        Ok(Project::new_from_id(self.last_project))
    }

    fn latest_dataset_hash(&self, project: &Project, dataset_id: &str) -> (r: Result<
        Option<String>,
        StoreError,
    >)
        ensures
            r is Ok,
    {
        let ghost wanted = |row: StoredDataset|
            row.project == project@ && row.dataset.id == dataset_id@;
        match find_dataset(&self.datasets, project, dataset_id, None, Ghost(wanted)) {
            Some(k) => Ok(Some(self.datasets[k].data.hash().clone())),
            None => Ok(None),
        }
    }

    fn register_dataset(&mut self, project: &Project, d: &Data, created: u64) -> (r: Result<
        (),
        StoreError,
    >)
        ensures
            r is Ok,
    {
        let ghost wanted = |row: StoredDataset|
            row.project == project@ && row.dataset.id == d@.id && row.dataset.hash == d@.hash;
        let found = find_dataset(
            &self.datasets,
            project,
            d.id().as_str(),
            Some(d.hash().as_str()),
            Ghost(wanted),
        );
        if found.is_none() {
            let ghost before = self.datasets.deep_view();
            let row = DatasetRow { project: *project, created, data: d.clone() };
            self.datasets.push(row);
            assert(self.datasets.deep_view() =~= before.push(
                StoredDataset { project: project@, created: created as nat, dataset: d@ },
            ));
        }
        Ok(())
    }

    fn load_dataset(&self, project: &Project, dataset_id: &str, hash: &str) -> (r: Result<
        Option<Data>,
        StoreError,
    >)
        ensures
            r is Ok,
    {
        let ghost wanted = |row: StoredDataset|
            row.project == project@ && row.dataset.id == dataset_id@ && row.dataset.hash == hash@;
        match find_dataset(&self.datasets, project, dataset_id, Some(hash), Ghost(wanted)) {
            Some(k) => Ok(Some(self.datasets[k].data.clone())),
            None => Ok(None),
        }
    }

    fn list_datasets(&self, project: &Project) -> (r: Result<Vec<DatasetVersion>, StoreError>)
        ensures
            r is Ok,
    {
        let ghost all = self.datasets.deep_view();
        let ghost of_project = |row: StoredDataset| row.project == project@;
        let ghost listed = |row: StoredDataset|
            Version { dataset_id: row.dataset.id, hash: row.dataset.hash, created: row.created };
        let mut list: Vec<DatasetVersion> = Vec::new();
        let mut i: usize = 0;
        proof {
            reveal(Seq::filter);
            assert(all.take(0).filter(of_project).map_values(listed) =~= list.deep_view());
        }
        while i < self.datasets.len()
            invariant
                i <= self.datasets.len(),
                all == self.datasets.deep_view(),
                of_project == (|row: StoredDataset| row.project == project@),
                listed == (|row: StoredDataset|
                    Version {
                        dataset_id: row.dataset.id,
                        hash: row.dataset.hash,
                        created: row.created,
                    }),
                list.deep_view() == all.take(i as int).filter(of_project).map_values(listed),
            decreases self.datasets.len() - i,
        {
            let row = &self.datasets[i];
            let ghost before = list.deep_view();
            proof {
                reveal(Seq::filter);
                assert(all.take(i + 1).drop_last() == all.take(i as int));
                assert(all.take(i + 1).last() == row.deep_view());
            }
            if row.project.project_id() == project.project_id() {
                list.push(
                    DatasetVersion {
                        dataset_id: row.data.id().clone(),
                        hash: row.data.hash().clone(),
                        created: row.created,
                    },
                );
                proof {
                    assert(list.deep_view() =~= before.push(listed(row.deep_view())));
                    all.take(i as int).filter(of_project).lemma_push_map_commute(
                        listed,
                        row.deep_view(),
                    );
                }
            }
            i += 1;
        }
        assert(all.take(i as int) == all);
        Ok(list)
    }

    fn latest_specification_hash(&self, project: &Project) -> (r: Result<
        Option<String>,
        StoreError,
    >)
        ensures
            r is Ok,
    {
        let ghost all = self.specifications.deep_view();
        let mut i: usize = self.specifications.len();
        assert(all.take(i as int) == all);
        while i > 0
            invariant
                i <= self.specifications.len(),
                all == self.specifications.deep_view(),
                last_specification(all, project@) == last_specification(
                    all.take(i as int),
                    project@,
                ),
            decreases i,
        {
            i -= 1;
            let row = &self.specifications[i];
            proof {
                assert(all.take(i + 1).last() == row.deep_view());
                assert(all.take(i + 1).drop_last() == all.take(i as int));
            }
            if row.project.project_id() == project.project_id() {
                return Ok(Some(row.hash.clone()));
            }
        }
        Ok(None)
    }

    fn register_specification(&mut self, project: &Project, hash: &str, spec: &str) -> (r: Result<
        (),
        StoreError,
    >)
        ensures
            r is Ok,
    {
        let ghost before = self.specifications.deep_view();
        self.specifications.push(
            SpecificationRow {
                project: *project,
                hash: String::from_str(hash),
                text: String::from_str(spec),
            },
        );
        assert(self.specifications.deep_view() =~= before.push(
            StoredSpecification { project: project@, hash: hash@, text: spec@ },
        ));
        Ok(())
    }

    fn latest_run_id(&self, project: &Project) -> (r: Result<Option<String>, StoreError>)
        ensures
            r is Ok,
    {
        let ghost wanted = |row: StoredRun| row.project == project@;
        match find_run(&self.runs, Some(project), None, Ghost(wanted)) {
            Some(k) => Ok(Some(self.runs[k].run.run_id.clone())),
            None => Ok(None),
        }
    }

    fn all_runs(&self, project: &Project) -> (r: Result<Vec<RunSummary>, StoreError>)
        ensures
            r is Ok,
    {
        let ghost all = self.runs.deep_view();
        let ghost of_project = |row: StoredRun| row.project == project@;
        let ghost listed = |row: StoredRun|
            Summary {
                run_id: row.run.run_id,
                created: row.run.created,
                app_hash: row.run.app_hash,
                config: row.run.config,
            };
        let mut list: Vec<RunSummary> = Vec::new();
        let mut i: usize = 0;
        proof {
            reveal(Seq::filter);
            assert(all.take(0).filter(of_project).map_values(listed) =~= list.deep_view());
        }
        while i < self.runs.len()
            invariant
                i <= self.runs.len(),
                all == self.runs.deep_view(),
                of_project == (|row: StoredRun| row.project == project@),
                listed == (|row: StoredRun|
                    Summary {
                        run_id: row.run.run_id,
                        created: row.run.created,
                        app_hash: row.run.app_hash,
                        config: row.run.config,
                    }),
                list.deep_view() == all.take(i as int).filter(of_project).map_values(listed),
            decreases self.runs.len() - i,
        {
            let row = &self.runs[i];
            let ghost before = list.deep_view();
            proof {
                reveal(Seq::filter);
                assert(all.take(i + 1).drop_last() == all.take(i as int));
                assert(all.take(i + 1).last() == row.deep_view());
            }
            if row.project.project_id() == project.project_id() {
                list.push(
                    RunSummary {
                        run_id: row.run.run_id.clone(),
                        created: row.run.created,
                        app_hash: row.run.app_hash.clone(),
                        config: row.run.config.clone(),
                    },
                );
                proof {
                    assert(list.deep_view() =~= before.push(listed(row.deep_view())));
                    all.take(i as int).filter(of_project).lemma_push_map_commute(
                        listed,
                        row.deep_view(),
                    );
                }
            }
            i += 1;
        }
        assert(all.take(i as int) == all);
        Ok(list)
    }

    fn create_run_empty(&mut self, project: &Project, run: &Run) -> (r: Result<(), StoreError>)
        ensures
            r is Ok <==> old(self).contents().run(run.run_id@) is None,
    {
        let ghost wanted = |row: StoredRun| row.run.run_id == run.run_id@;
        if find_run(&self.runs, None, Some(run.run_id.as_str()), Ghost(wanted)).is_some() {
            return Err(failure("A run has this identifier already"));
        }
        let ghost before = self.runs.deep_view();
        let row = RunRow {
            project: *project,
            run: Run {
                run_id: run.run_id.clone(),
                created: run.created,
                app_hash: run.app_hash.clone(),
                config: run.config.clone(),
                status: run.status.clone(),
                traces: Vec::new(),
            },
        };
        proof {
            assert(row.run.traces.deep_view() =~= Seq::empty());
        }
        self.runs.push(row);
        assert(self.runs.deep_view() =~= before.push(
            StoredRun {
                project: project@,
                run: crate::run::RunRecord { traces: Seq::empty(), ..run.deep_view() },
            },
        ));
        Ok(())
    }

    fn update_run_status(&mut self, project: &Project, run_id: &str, run_status: &RunStatus) -> (r:
        Result<(), StoreError>)
        ensures
            r is Ok,
    {
        let ghost before = self.runs.deep_view();
        let ghost status = run_status.deep_view();
        let ghost after = old(self).contents().update_run_status(project@, run_id@, status);
        let mut i: usize = 0;
        while i < self.runs.len()
            invariant
                i <= self.runs.len(),
                self.runs@.len() == before.len(),
                status == run_status.deep_view(),
                after == old(self).contents().update_run_status(project@, run_id@, status),
                before == old(self).contents().runs,
                forall|k: int| 0 <= k < i ==> self.runs@[k].deep_view() == after.runs[k],
                forall|k: int| i <= k < before.len() ==> self.runs@[k].deep_view() == before[k],
                self.last_project == old(self).last_project,
                self.datasets == old(self).datasets,
                self.specifications == old(self).specifications,
                self.generations == old(self).generations,
                self.responses == old(self).responses,
            decreases self.runs.len() - i,
        {
            let fits = self.runs[i].project.project_id() == project.project_id() && same_text(
                self.runs[i].run.run_id.as_str(),
                run_id,
            );
            if fits {
                let mut run = self.runs[i].run.clone();
                run.status = run_status.clone();
                let row = RunRow { project: *project, run };
                self.runs.set(i, row);
            }
            i += 1;
        }
        assert(self.runs.deep_view() =~= after.runs);
        Ok(())
    }

    fn append_run_block(
        &mut self,
        project: &Project,
        run: &Run,
        block_idx: usize,
        block_type: &BlockType,
        block_name: &String,
    ) -> (r: Result<(), StoreError>)
        ensures
            r is Ok,
    {
        let ghost before = self.runs.deep_view();
        let ghost trace = crate::run::BlockTrace {
            block_type: *block_type,
            name: block_name@,
            executions: run.traces@[block_idx as int].executions.deep_view(),
        };
        let ghost after = old(self).contents().append_run_block(project@, run.run_id@, trace);
        let mut i: usize = 0;
        while i < self.runs.len()
            invariant
                i <= self.runs.len(),
                block_idx < run.traces@.len(),
                self.runs@.len() == before.len(),
                trace == (crate::run::BlockTrace {
                    block_type: *block_type,
                    name: block_name@,
                    executions: run.traces@[block_idx as int].executions.deep_view(),
                }),
                after == old(self).contents().append_run_block(project@, run.run_id@, trace),
                before == old(self).contents().runs,
                forall|k: int| 0 <= k < i ==> self.runs@[k].deep_view() == after.runs[k],
                forall|k: int| i <= k < before.len() ==> self.runs@[k].deep_view() == before[k],
                self.last_project == old(self).last_project,
                self.datasets == old(self).datasets,
                self.specifications == old(self).specifications,
                self.generations == old(self).generations,
                self.responses == old(self).responses,
            decreases self.runs.len() - i,
        {
            let fits = self.runs[i].project.project_id() == project.project_id() && same_text(
                self.runs[i].run.run_id.as_str(),
                run.run_id.as_str(),
            );
            if fits {
                let mut changed = self.runs[i].run.clone();
                let ghost traces = changed.traces.deep_view();
                changed.traces.push(
                    Trace {
                        block_type: *block_type,
                        name: block_name.clone(),
                        executions: copy_executions(&run.traces[block_idx].executions),
                    },
                );
                assert(changed.traces.deep_view() =~= traces.push(trace));
                let row = RunRow { project: *project, run: changed };
                self.runs.set(i, row);
            }
            i += 1;
        }
        assert(self.runs.deep_view() =~= after.runs);
        Ok(())
    }

    fn load_run(&self, project: &Project, run_id: &str, block: &BlockFilter) -> (r: Result<
        Option<Run>,
        StoreError,
    >)
        ensures
            r is Ok,
    {
        let ghost wanted = |row: StoredRun| row.project == project@ && row.run.run_id == run_id@;
        let k = match find_run(&self.runs, Some(project), Some(run_id), Ghost(wanted)) {
            Some(k) => k,
            None => {
                return Ok(None);
            },
        };
        let stored = &self.runs[k].run;
        let ghost all = stored.traces.deep_view();
        let mut traces: Vec<Trace> = Vec::new();
        match block {
            BlockFilter::All => {
                traces = crate::run::copy_traces(&stored.traces);
            },
            BlockFilter::Nothing => {
                assert(traces.deep_view() =~= Seq::empty());
            },
            BlockFilter::Block { block_type, name } => {
                let ghost of_block = |t: crate::run::BlockTrace|
                    t.block_type == *block_type && t.name == name@;
                let mut i: usize = 0;
                proof {
                    reveal(Seq::filter);
                    assert(all.take(0).filter(of_block) =~= traces.deep_view());
                }
                while i < stored.traces.len()
                    invariant
                        i <= stored.traces.len(),
                        all == stored.traces.deep_view(),
                        of_block == (|t: crate::run::BlockTrace|
                            t.block_type == *block_type && t.name == name@),
                        traces.deep_view() == all.take(i as int).filter(of_block),
                    decreases stored.traces.len() - i,
                {
                    let trace = &stored.traces[i];
                    let ghost before = traces.deep_view();
                    proof {
                        reveal(Seq::filter);
                        assert(all.take(i + 1).drop_last() == all.take(i as int));
                        assert(all.take(i + 1).last() == trace.deep_view());
                    }
                    if trace.block_type == *block_type && same_text(
                        trace.name.as_str(),
                        name.as_str(),
                    ) {
                        traces.push(trace.clone());
                        assert(traces.deep_view() =~= before.push(trace.deep_view()));
                    }
                    i += 1;
                }
                assert(all.take(i as int) == all);
            },
        }
        Ok(
            Some(
                Run {
                    run_id: stored.run_id.clone(),
                    created: stored.created,
                    app_hash: stored.app_hash.clone(),
                    config: stored.config.clone(),
                    status: stored.status.clone(),
                    traces,
                },
            ),
        )
    }

    fn llm_cache_get(&self, project: &Project, request: &LLMRequest) -> (r: Result<
        Vec<LLMGeneration>,
        StoreError,
    >)
        ensures
            r is Ok,
    {
        let ghost all = self.generations.deep_view();
        let ghost wanted = |row: CachedGeneration|
            row.project == project@ && row.request == request.deep_view();
        let ghost given = |row: CachedGeneration| row.generation;
        let mut list: Vec<LLMGeneration> = Vec::new();
        let mut i: usize = 0;
        proof {
            reveal(Seq::filter);
            assert(all.take(0).filter(wanted).map_values(given) =~= list.deep_view());
        }
        while i < self.generations.len()
            invariant
                i <= self.generations.len(),
                all == self.generations.deep_view(),
                wanted == (|row: CachedGeneration|
                    row.project == project@ && row.request == request.deep_view()),
                given == (|row: CachedGeneration| row.generation),
                list.deep_view() == all.take(i as int).filter(wanted).map_values(given),
            decreases self.generations.len() - i,
        {
            let row = &self.generations[i];
            let ghost before = list.deep_view();
            proof {
                reveal(Seq::filter);
                assert(all.take(i + 1).drop_last() == all.take(i as int));
                assert(all.take(i + 1).last() == row.deep_view());
            }
            if row.project.project_id() == project.project_id() && row.request.same(request) {
                list.push(row.generation.clone());
                proof {
                    assert(list.deep_view() =~= before.push(given(row.deep_view())));
                    all.take(i as int).filter(wanted).lemma_push_map_commute(
                        given,
                        row.deep_view(),
                    );
                }
            }
            i += 1;
        }
        assert(all.take(i as int) == all);
        Ok(list)
    }

    fn llm_cache_store(
        &mut self,
        project: &Project,
        request: &LLMRequest,
        generation: &LLMGeneration,
    ) -> (r: Result<(), StoreError>)
        ensures
            r is Ok,
    {
        let ghost before = self.generations.deep_view();
        self.generations.push(
            GenerationRow {
                project: *project,
                request: request.clone(),
                generation: generation.clone(),
            },
        );
        assert(self.generations.deep_view() =~= before.push(
            CachedGeneration {
                project: project@,
                request: request.deep_view(),
                generation: generation.deep_view(),
            },
        ));
        Ok(())
    }

    fn http_cache_get(&self, project: &Project, request: &HttpRequest) -> (r: Result<
        Vec<HttpResponse>,
        StoreError,
    >)
        ensures
            r is Ok,
    {
        let ghost all = self.responses.deep_view();
        let ghost wanted = |row: CachedResponse|
            row.project == project@ && row.request == request.deep_view();
        let ghost given = |row: CachedResponse| row.response;
        let mut list: Vec<HttpResponse> = Vec::new();
        let mut i: usize = 0;
        proof {
            reveal(Seq::filter);
            assert(all.take(0).filter(wanted).map_values(given) =~= list.deep_view());
        }
        while i < self.responses.len()
            invariant
                i <= self.responses.len(),
                all == self.responses.deep_view(),
                wanted == (|row: CachedResponse|
                    row.project == project@ && row.request == request.deep_view()),
                given == (|row: CachedResponse| row.response),
                list.deep_view() == all.take(i as int).filter(wanted).map_values(given),
            decreases self.responses.len() - i,
        {
            let row = &self.responses[i];
            let ghost before = list.deep_view();
            proof {
                reveal(Seq::filter);
                assert(all.take(i + 1).drop_last() == all.take(i as int));
                assert(all.take(i + 1).last() == row.deep_view());
            }
            if row.project.project_id() == project.project_id() && row.request.same(request) {
                list.push(row.response.clone());
                proof {
                    assert(list.deep_view() =~= before.push(given(row.deep_view())));
                    all.take(i as int).filter(wanted).lemma_push_map_commute(
                        given,
                        row.deep_view(),
                    );
                }
            }
            i += 1;
        }
        assert(all.take(i as int) == all);
        Ok(list)
    }

    fn http_cache_store(
        &mut self,
        project: &Project,
        request: &HttpRequest,
        response: &HttpResponse,
    ) -> (r: Result<(), StoreError>)
        ensures
            r is Ok,
    {
        let ghost before = self.responses.deep_view();
        self.responses.push(
            ResponseRow { project: *project, request: request.clone(), response: response.clone() },
        );
        assert(self.responses.deep_view() =~= before.push(
            CachedResponse {
                project: project@,
                request: request.deep_view(),
                response: response.deep_view(),
            },
        ));
        Ok(())
    }
}

} // verus!
