use dust::blocks::block::{BlockConfig, BlockType, RunConfig};
use dust::data::Data;
use dust::http::{HttpRequest, HttpResponse};
use dust::json::{read, JsonValue};
use dust::llm::{LLMGeneration, LLMRequest};
use dust::memory::MemoryStore;
use dust::project::Project;
use dust::run::{BlockExecution, BlockStatus, Run, RunStatus, Status, Trace};
use dust::store::{BlockFilter, Store};

fn lines(texts: &[&str]) -> Vec<String> {
    texts.iter().map(|t| String::from(*t)).collect()
}

fn dataset(id: &str, texts: &[&str]) -> Data {
    Data::new_from_jsonl(id, &lines(texts)).ok().unwrap()
}

fn execution(value: &str) -> BlockExecution {
    BlockExecution { value: Some(read(value).unwrap().into_value()), error: None, meta: None }
}

fn failed(error: &str) -> BlockExecution {
    BlockExecution { value: None, error: Some(String::from(error)), meta: None }
}

fn run(run_id: &str, traces: Vec<Trace>) -> Run {
    Run {
        run_id: String::from(run_id),
        created: 10,
        app_hash: String::from("apphash"),
        config: RunConfig {
            blocks: vec![BlockConfig {
                block: String::from("MODEL"),
                options: read("{\"use_cache\":true}").unwrap().into_value(),
            }],
        },
        status: RunStatus { run: Status::Running, blocks: Vec::new() },
        traces,
    }
}

fn trace(block_type: BlockType, name: &str, executions: Vec<Vec<BlockExecution>>) -> Trace {
    Trace { block_type, name: String::from(name), executions }
}

#[test]
fn projects_get_increasing_identifiers() {
    let mut store = MemoryStore::new();
    let a = store.create_project().unwrap();
    let b = store.create_project().unwrap();
    let c = store.create_project().unwrap();
    assert!(a.project_id() < b.project_id());
    assert!(b.project_id() < c.project_id());
    assert_eq!(a, Project::new_from_id(a.project_id()));
}

#[test]
fn registered_dataset_loads_with_equal_points() {
    let mut store = MemoryStore::new();
    let p = store.create_project().unwrap();
    let d = dataset("train", &["{\"x\": 1, \"s\": \"é\"}", "{\"s\":\"b\",\"x\":2.5}"]);
    store.register_dataset(&p, &d, 100).unwrap();
    let loaded = store.load_dataset(&p, "train", d.hash()).unwrap().unwrap();
    assert_eq!(loaded.hash(), d.hash());
    assert_eq!(loaded.id(), d.id());
    assert_eq!(loaded.len(), d.len());
    assert_eq!(loaded.register().jsonl.as_bytes(), d.register().jsonl.as_bytes());
    let a: Vec<&JsonValue> = loaded.iter().collect();
    let b: Vec<&JsonValue> = d.iter().collect();
    assert_eq!(a, b);
    assert_eq!(store.latest_dataset_hash(&p, "train").unwrap().as_ref(), Some(d.hash()));
}

#[test]
fn dataset_of_another_project_or_hash_is_not_found() {
    let mut store = MemoryStore::new();
    let p = store.create_project().unwrap();
    let q = store.create_project().unwrap();
    let d = dataset("train", &["{\"x\":1}"]);
    store.register_dataset(&p, &d, 1).unwrap();
    assert!(store.load_dataset(&q, "train", d.hash()).unwrap().is_none());
    assert!(store.load_dataset(&p, "test", d.hash()).unwrap().is_none());
    assert!(store.load_dataset(&p, "train", "0000").unwrap().is_none());
    assert!(store.latest_dataset_hash(&q, "train").unwrap().is_none());
    assert!(store.list_datasets(&q).unwrap().is_empty());
}

#[test]
fn registering_a_dataset_twice_adds_nothing() {
    let mut store = MemoryStore::new();
    let p = store.create_project().unwrap();
    let d = dataset("train", &["{\"x\":1}", "{\"x\":2}"]);
    store.register_dataset(&p, &d, 1).unwrap();
    let once = store.list_datasets(&p).unwrap();
    let again = dataset("train", &["{\"x\": 1}", " {\"x\":2}"]);
    assert_eq!(again.hash(), d.hash());
    store.register_dataset(&p, &again, 2).unwrap();
    let twice = store.list_datasets(&p).unwrap();
    assert_eq!(once.len(), 1);
    assert_eq!(twice.len(), 1);
    assert_eq!(twice[0].dataset_id, "train");
    assert_eq!(&twice[0].hash, d.hash());
    assert_eq!(twice[0].created, 1);
}

#[test]
fn latest_dataset_is_the_last_registered() {
    let mut store = MemoryStore::new();
    let p = store.create_project().unwrap();
    let first = dataset("train", &["{\"x\":1}"]);
    let second = dataset("train", &["{\"x\":2}"]);
    let other = dataset("test", &["{\"y\":0}"]);
    store.register_dataset(&p, &first, 1).unwrap();
    store.register_dataset(&p, &second, 2).unwrap();
    store.register_dataset(&p, &other, 3).unwrap();
    assert_eq!(store.latest_dataset_hash(&p, "train").unwrap().as_ref(), Some(second.hash()));
    assert_eq!(store.latest_dataset_hash(&p, "test").unwrap().as_ref(), Some(other.hash()));
    let listed = store.list_datasets(&p).unwrap();
    let ids: Vec<&str> = listed.iter().map(|v| v.dataset_id.as_str()).collect();
    assert_eq!(ids, vec!["train", "train", "test"]);
    let times: Vec<u64> = listed.iter().map(|v| v.created).collect();
    assert_eq!(times, vec![1, 2, 3]);
    assert!(store.load_dataset(&p, "train", first.hash()).unwrap().is_some());
}

#[test]
fn latest_specification_is_the_last_registered() {
    let mut store = MemoryStore::new();
    let p = store.create_project().unwrap();
    let q = store.create_project().unwrap();
    assert!(store.latest_specification_hash(&p).unwrap().is_none());
    store.register_specification(&p, "h1", "root ROOT {}").unwrap();
    store.register_specification(&q, "h9", "root OTHER {}").unwrap();
    store.register_specification(&p, "h2", "root ROOT {}\n").unwrap();
    assert_eq!(store.latest_specification_hash(&p).unwrap(), Some(String::from("h2")));
    assert_eq!(store.latest_specification_hash(&q).unwrap(), Some(String::from("h9")));
}

#[test]
fn run_identifiers_are_unique() {
    let mut store = MemoryStore::new();
    let p = store.create_project().unwrap();
    let q = store.create_project().unwrap();
    store.create_run_empty(&p, &run("r1", Vec::new())).unwrap();
    assert!(store.create_run_empty(&p, &run("r1", Vec::new())).is_err());
    assert!(store.create_run_empty(&q, &run("r1", Vec::new())).is_err());
    store.create_run_empty(&q, &run("r2", Vec::new())).unwrap();
    assert_eq!(store.all_runs(&p).unwrap().len(), 1);
    assert_eq!(store.all_runs(&q).unwrap().len(), 1);
    assert_eq!(store.latest_run_id(&p).unwrap(), Some(String::from("r1")));
    assert_eq!(store.latest_run_id(&q).unwrap(), Some(String::from("r2")));
}

#[test]
fn created_run_has_no_traces() {
    let mut store = MemoryStore::new();
    let p = store.create_project().unwrap();
    let with_traces = run("r1", vec![trace(BlockType::Root, "ROOT", vec![vec![execution("{\"x\":1}")]])]);
    store.create_run_empty(&p, &with_traces).unwrap();
    let loaded = store.load_run(&p, "r1", &BlockFilter::All).unwrap().unwrap();
    assert_eq!(loaded.run_id, "r1");
    assert_eq!(loaded.app_hash, "apphash");
    assert_eq!(loaded.created, 10);
    assert_eq!(loaded.config.blocks.len(), 1);
    assert!(loaded.config.use_cache("MODEL"));
    assert!(loaded.traces.is_empty());
    assert!(store.load_run(&p, "r2", &BlockFilter::All).unwrap().is_none());
    let listed = store.all_runs(&p).unwrap();
    assert_eq!(listed[0].run_id, "r1");
    assert_eq!(listed[0].created, 10);
    assert_eq!(listed[0].app_hash, "apphash");
}

#[test]
fn appended_block_loads_with_its_executions() {
    let mut store = MemoryStore::new();
    let p = store.create_project().unwrap();
    let r = run(
        "r1",
        vec![
            trace(BlockType::Root, "ROOT", vec![vec![execution("{\"x\":1}")], vec![execution("{\"x\":2}")]]),
            trace(
                BlockType::Code,
                "DBL",
                vec![vec![execution("{\"y\":2}")], vec![failed("division by zero"), execution("{\"y\":4}")]],
            ),
        ],
    );
    store.create_run_empty(&p, &r).unwrap();
    store.append_run_block(&p, &r, 0, &BlockType::Root, &String::from("ROOT")).unwrap();
    store.append_run_block(&p, &r, 1, &BlockType::Code, &String::from("DBL")).unwrap();

    let block = BlockFilter::Block { block_type: BlockType::Code, name: String::from("DBL") };
    let loaded = store.load_run(&p, "r1", &block).unwrap().unwrap();
    assert_eq!(loaded.traces.len(), 1);
    let t = &loaded.traces[0];
    assert_eq!(t.block_type, BlockType::Code);
    assert_eq!(t.name, "DBL");
    assert_eq!(t.executions.len(), 2);
    assert_eq!(t.executions[0].len(), 1);
    assert_eq!(t.executions[1].len(), 2);
    for n in 0..2 {
        for m in 0..t.executions[n].len() {
            assert_eq!(t.executions[n][m].value, r.traces[1].executions[n][m].value);
            assert_eq!(t.executions[n][m].error, r.traces[1].executions[n][m].error);
        }
    }
    assert_eq!(t.executions[1][0].error, Some(String::from("division by zero")));

    let all = store.load_run(&p, "r1", &BlockFilter::All).unwrap().unwrap();
    assert_eq!(all.traces.len(), 2);
    assert_eq!(all.traces[0].name, "ROOT");
    assert_eq!(all.traces[1].name, "DBL");
    let none = store.load_run(&p, "r1", &BlockFilter::Nothing).unwrap().unwrap();
    assert!(none.traces.is_empty());
    let other = BlockFilter::Block { block_type: BlockType::Code, name: String::from("ROOT") };
    assert!(store.load_run(&p, "r1", &other).unwrap().unwrap().traces.is_empty());
}

#[test]
fn run_of_another_project_is_not_loaded() {
    let mut store = MemoryStore::new();
    let p = store.create_project().unwrap();
    let q = store.create_project().unwrap();
    store.create_run_empty(&p, &run("r1", Vec::new())).unwrap();
    assert!(store.load_run(&q, "r1", &BlockFilter::All).unwrap().is_none());
    assert!(store.latest_run_id(&q).unwrap().is_none());
}

#[test]
fn run_status_is_updated() {
    let mut store = MemoryStore::new();
    let p = store.create_project().unwrap();
    store.create_run_empty(&p, &run("r1", Vec::new())).unwrap();
    store.create_run_empty(&p, &run("r2", Vec::new())).unwrap();
    let status = RunStatus {
        run: Status::Succeeded,
        blocks: vec![BlockStatus {
            block_type: BlockType::Code,
            name: String::from("DBL"),
            status: Status::Succeeded,
            success_count: 1,
            error_count: 1,
        }],
    };
    store.update_run_status(&p, "r1", &status).unwrap();
    let loaded = store.load_run(&p, "r1", &BlockFilter::Nothing).unwrap().unwrap();
    assert_eq!(loaded.status.run, Status::Succeeded);
    assert_eq!(loaded.status.blocks.len(), 1);
    assert_eq!(loaded.status.blocks[0].name, "DBL");
    assert_eq!(loaded.status.blocks[0].success_count, 1);
    assert_eq!(loaded.status.blocks[0].error_count, 1);
    let untouched = store.load_run(&p, "r2", &BlockFilter::Nothing).unwrap().unwrap();
    assert_eq!(untouched.status.run, Status::Running);
    assert!(untouched.status.blocks.is_empty());
}

fn prompt(text: &str) -> LLMRequest {
    LLMRequest {
        provider_id: String::from("stub"),
        model_id: String::from("m"),
        prompt: String::from(text),
        max_tokens: Some(16),
        temperature: String::from("0.7"),
        stop: vec![String::from("\n")],
    }
}

fn generation(created: u64, completion: &str) -> LLMGeneration {
    LLMGeneration { created, prompt: String::from("p"), completions: vec![String::from(completion)] }
}

#[test]
fn llm_cache_keeps_generations_by_request_and_project() {
    let mut store = MemoryStore::new();
    let p = store.create_project().unwrap();
    let q = store.create_project().unwrap();
    assert!(store.llm_cache_get(&p, &prompt("a")).unwrap().is_empty());
    store.llm_cache_store(&p, &prompt("a"), &generation(1, "first")).unwrap();
    store.llm_cache_store(&p, &prompt("b"), &generation(2, "other")).unwrap();
    store.llm_cache_store(&q, &prompt("a"), &generation(3, "elsewhere")).unwrap();
    store.llm_cache_store(&p, &prompt("a"), &generation(4, "second")).unwrap();
    let found = store.llm_cache_get(&p, &prompt("a")).unwrap();
    let completions: Vec<&str> = found.iter().map(|g| g.completions[0].as_str()).collect();
    assert_eq!(completions, vec!["first", "second"]);
    assert_eq!(found.last().unwrap().created, 4);
    assert_eq!(store.llm_cache_get(&q, &prompt("a")).unwrap().len(), 1);
    let mut colder = prompt("a");
    colder.temperature = String::from("0.1");
    assert!(store.llm_cache_get(&p, &colder).unwrap().is_empty());
    let mut longer = prompt("a");
    longer.max_tokens = None;
    assert!(store.llm_cache_get(&p, &longer).unwrap().is_empty());
}

fn request(url: &str, body: &str) -> HttpRequest {
    HttpRequest {
        method: String::from("GET"),
        url: String::from(url),
        headers: read("{}").unwrap().into_value(),
        body: read(body).unwrap().into_value(),
    }
}

#[test]
fn http_cache_keeps_responses_by_request_and_project() {
    let mut store = MemoryStore::new();
    let p = store.create_project().unwrap();
    let q = store.create_project().unwrap();
    let ok = HttpResponse { status: 200, body: read("{\"a\":[1,2]}").unwrap().into_value() };
    let gone = HttpResponse { status: 404, body: JsonValue::Null };
    store.http_cache_store(&p, &request("https://x/1", "null"), &ok).unwrap();
    store.http_cache_store(&p, &request("https://x/1", "null"), &gone).unwrap();
    store.http_cache_store(&p, &request("https://x/2", "null"), &gone).unwrap();
    let found = store.http_cache_get(&p, &request("https://x/1", "null")).unwrap();
    assert_eq!(found.len(), 2);
    assert_eq!(found[0], ok);
    assert_eq!(found[1], gone);
    assert!(store.http_cache_get(&q, &request("https://x/1", "null")).unwrap().is_empty());
    assert!(store.http_cache_get(&p, &request("https://x/1", "{\"k\":[1,{\"z\":null}]}")).unwrap().is_empty());
    assert_eq!(store.http_cache_get(&p, &request("https://x/2", "null")).unwrap().len(), 1);
}

#[test]
fn same_json_compares_deeply() {
    let a = read("{\"k\":[1,{\"z\":null},\"s\"],\"b\":true}").unwrap().into_value();
    let b = read(" { \"b\" : true , \"k\" : [ 1 , { \"z\" : null } , \"s\" ] } ").unwrap().into_value();
    let c = read("{\"k\":[1,{\"z\":false},\"s\"],\"b\":true}").unwrap().into_value();
    let d = read("{\"k\":[1,{\"z\":null}],\"b\":true}").unwrap().into_value();
    assert!(a.same(&b));
    assert!(!a.same(&c));
    assert!(!a.same(&d));
    assert!(!a.same(&JsonValue::Null));
    assert!(JsonValue::Number(String::from("1")).same(&JsonValue::Number(String::from("1"))));
    assert!(!JsonValue::Number(String::from("1")).same(&JsonValue::String(String::from("1"))));
}
