use dust::blocks::block::{
    BlockConfig, BlockError, BlockItem, Credential, Env, InputState, MapState, RunConfig,
};
use dust::blocks::search::Search;
use dust::blocks::while_loop::{Evaluator, While};
use dust::http::{HttpClient, HttpError, HttpRequest, HttpResponse};
use dust::json::{read, JsonValue};
use dust::llm::{LLMError, LLMGeneration, LLMRequest, LLM};
use dust::memory::MemoryStore;
use dust::project::Project;
use dust::store::Store;

/// A provider that counts its calls and answers with the prompt in upper case.
struct CountingProvider {
    calls: usize,
}

impl LLM for CountingProvider {
    fn generate(&mut self, request: &LLMRequest) -> Result<LLMGeneration, String> {
        self.calls += 1;
        Ok(LLMGeneration {
            created: self.calls as u64,
            prompt: request.prompt.clone(),
            completions: vec![request.prompt.to_uppercase()],
        })
    }
}

struct FailingProvider {}

impl LLM for FailingProvider {
    fn generate(&mut self, _request: &LLMRequest) -> Result<LLMGeneration, String> {
        Err(String::from("model overloaded"))
    }
}

/// A client that counts its calls and answers with a fixed status.
struct CountingClient {
    calls: usize,
    status: u16,
    seen: Vec<String>,
}

impl HttpClient for CountingClient {
    fn send(&mut self, request: &HttpRequest) -> Result<HttpResponse, String> {
        self.calls += 1;
        self.seen.push(request.url.clone());
        Ok(HttpResponse {
            status: self.status,
            body: read(&format!("{{\"call\":{}}}", self.calls)).unwrap().into_value(),
        })
    }
}

struct BrokenClient {}

impl HttpClient for BrokenClient {
    fn send(&mut self, _request: &HttpRequest) -> Result<HttpResponse, String> {
        Err(String::from("connection refused"))
    }
}

fn prompt(text: &str) -> LLMRequest {
    LLMRequest {
        provider_id: String::from("stub"),
        model_id: String::from("m"),
        prompt: String::from(text),
        max_tokens: None,
        temperature: String::from("0"),
        stop: Vec::new(),
    }
}

fn project(store: &mut MemoryStore) -> Project {
    store.create_project().unwrap()
}

#[test]
fn cache_hit_calls_the_provider_once_a_row() {
    let rows = ["one", "two", "three"];
    let mut store = MemoryStore::new();
    let p = project(&mut store);
    let mut provider = CountingProvider { calls: 0 };
    let mut first = Vec::new();
    for row in rows {
        first.push(prompt(row).execute_with_cache(&p, &mut store, &mut provider, true).unwrap());
    }
    assert_eq!(provider.calls, rows.len());
    provider.calls = 0;
    let mut second = Vec::new();
    for row in rows {
        second.push(prompt(row).execute_with_cache(&p, &mut store, &mut provider, true).unwrap());
    }
    assert_eq!(provider.calls, 0);
    for (a, b) in first.iter().zip(second.iter()) {
        assert_eq!(a.completions, b.completions);
        assert_eq!(a.created, b.created);
    }
    assert_eq!(second[1].completions, vec![String::from("TWO")]);
}

#[test]
fn without_the_cache_the_provider_is_always_called() {
    let mut store = MemoryStore::new();
    let p = project(&mut store);
    let mut provider = CountingProvider { calls: 0 };
    prompt("x").execute_with_cache(&p, &mut store, &mut provider, false).unwrap();
    prompt("x").execute_with_cache(&p, &mut store, &mut provider, false).unwrap();
    assert_eq!(provider.calls, 2);
    assert_eq!(store.llm_cache_get(&p, &prompt("x")).unwrap().len(), 2);
    let latest = prompt("x").execute_with_cache(&p, &mut store, &mut provider, true).unwrap();
    assert_eq!(provider.calls, 2);
    assert_eq!(latest.created, 2);
}

#[test]
fn cache_is_kept_by_project() {
    let mut store = MemoryStore::new();
    let p = project(&mut store);
    let q = project(&mut store);
    let mut provider = CountingProvider { calls: 0 };
    prompt("x").execute_with_cache(&p, &mut store, &mut provider, true).unwrap();
    prompt("x").execute_with_cache(&q, &mut store, &mut provider, true).unwrap();
    assert_eq!(provider.calls, 2);
}

#[test]
fn provider_error_is_not_cached() {
    let mut store = MemoryStore::new();
    let p = project(&mut store);
    let mut failing = FailingProvider {};
    let r = prompt("x").execute_with_cache(&p, &mut store, &mut failing, true);
    assert_eq!(r.err(), Some(LLMError::Provider { message: String::from("model overloaded") }));
    assert!(store.llm_cache_get(&p, &prompt("x")).unwrap().is_empty());
}

fn get(url: &str) -> HttpRequest {
    HttpRequest {
        method: String::from("GET"),
        url: String::from(url),
        headers: JsonValue::Object(Vec::new()),
        body: JsonValue::Null,
    }
}

#[test]
fn http_answer_is_cached_whatever_its_status() {
    let mut store = MemoryStore::new();
    let p = project(&mut store);
    let mut client = CountingClient { calls: 0, status: 500, seen: Vec::new() };
    let a = get("https://x").execute_with_cache(&p, &mut store, &mut client, true).unwrap();
    let b = get("https://x").execute_with_cache(&p, &mut store, &mut client, true).unwrap();
    assert_eq!(client.calls, 1);
    assert_eq!(a.status, 500);
    assert_eq!(a, b);
    let c = get("https://y").execute_with_cache(&p, &mut store, &mut client, true).unwrap();
    assert_eq!(client.calls, 2);
    assert_ne!(a, c);
}

#[test]
fn http_most_recent_answer_is_preferred() {
    let mut store = MemoryStore::new();
    let p = project(&mut store);
    let mut client = CountingClient { calls: 0, status: 200, seen: Vec::new() };
    get("https://x").execute_with_cache(&p, &mut store, &mut client, false).unwrap();
    let second = get("https://x").execute_with_cache(&p, &mut store, &mut client, false).unwrap();
    let cached = get("https://x").execute_with_cache(&p, &mut store, &mut client, true).unwrap();
    assert_eq!(client.calls, 2);
    assert_eq!(cached, second);
}

#[test]
fn http_failure_is_not_cached() {
    let mut store = MemoryStore::new();
    let p = project(&mut store);
    let mut broken = BrokenClient {};
    let r = get("https://x").execute_with_cache(&p, &mut store, &mut broken, true);
    assert_eq!(r.err(), Some(HttpError::Client { message: String::from("connection refused") }));
    assert!(store.http_cache_get(&p, &get("https://x")).unwrap().is_empty());
}

fn search(query: &str) -> Search {
    Search::parse(&vec![BlockItem::Pair { key: String::from("query"), value: String::from(query) }])
        .ok()
        .unwrap()
}

fn env(credentials: Vec<(&str, &str)>, options: Vec<(&str, &str)>) -> Env {
    Env {
        config: RunConfig {
            blocks: options
                .into_iter()
                .map(|(block, text)| BlockConfig {
                    block: String::from(block),
                    options: read(text).unwrap().into_value(),
                })
                .collect(),
        },
        state: Vec::new(),
        input: InputState { value: None, index: 0 },
        map: Some(MapState { name: String::from("LOOP"), iteration: 0, value: None }),
        credentials: credentials
            .into_iter()
            .map(|(name, secret)| Credential { name: String::from(name), secret: String::from(secret) })
            .collect(),
    }
}

#[test]
fn search_without_a_key_sends_nothing() {
    let mut store = MemoryStore::new();
    let p = project(&mut store);
    let mut client = CountingClient { calls: 0, status: 200, seen: Vec::new() };
    let r = search("q").execute("SEARCH", &env(vec![], vec![]), "q", None, &p, &mut store, &mut client);
    assert_eq!(r.err(), Some(BlockError::MissingCredential { name: String::from("SERP_API_KEY") }));
    assert_eq!(client.calls, 0);
}

#[test]
fn search_sends_once_and_then_uses_the_cache() {
    let mut store = MemoryStore::new();
    let p = project(&mut store);
    let mut client = CountingClient { calls: 0, status: 200, seen: Vec::new() };
    let e = env(vec![("SERP_API_KEY", "secret")], vec![]);
    let a = search("${IN.q}").execute("SEARCH", &e, "a b", None, &p, &mut store, &mut client).unwrap();
    let b = search("${IN.q}").execute("SEARCH", &e, "a b", None, &p, &mut store, &mut client).unwrap();
    assert_eq!(client.calls, 1);
    assert_eq!(a, b);
    assert_eq!(client.seen, vec![String::from("https://serpapi.com/search?q=a%20b&engine=google&api_key=secret")]);
    search("${IN.q}").execute("SEARCH", &e, "other", None, &p, &mut store, &mut client).unwrap();
    assert_eq!(client.calls, 2);
}

#[test]
fn search_never_stores_the_key() {
    let mut store = MemoryStore::new();
    let p = project(&mut store);
    let mut client = CountingClient { calls: 0, status: 200, seen: Vec::new() };
    let one = env(vec![("SERP_API_KEY", "first-secret")], vec![]);
    let other = env(vec![("SERP_API_KEY", "second-secret")], vec![]);
    let a = search("q").execute("SEARCH", &one, "a b", None, &p, &mut store, &mut client).unwrap();
    let known = search("q").cached_request("a b");
    assert_eq!(known.url, "https://serpapi.com/search?q=a%20b&engine=google");
    assert_eq!(store.http_cache_get(&p, &known).unwrap().len(), 1);
    let sent = search("q").request("a b", "first-secret");
    assert!(store.http_cache_get(&p, &sent).unwrap().is_empty());
    let b = search("q").execute("SEARCH", &other, "a b", None, &p, &mut store, &mut client).unwrap();
    assert_eq!(client.calls, 1);
    assert_eq!(a, b);
    assert_eq!(store.http_cache_get(&p, &known).unwrap().len(), 1);
}

#[test]
fn request_is_cached_under_one_form_and_sent_in_another() {
    let mut store = MemoryStore::new();
    let p = project(&mut store);
    let mut client = CountingClient { calls: 0, status: 200, seen: Vec::new() };
    let known = get("https://x");
    let sent = get("https://x?token=t");
    let a = known.execute_with_cache_as(&sent, &p, &mut store, &mut client, true).unwrap();
    assert_eq!(client.seen, vec![String::from("https://x?token=t")]);
    assert_eq!(store.http_cache_get(&p, &known).unwrap(), vec![a.clone()]);
    assert!(store.http_cache_get(&p, &sent).unwrap().is_empty());
    let b = known.execute_with_cache(&p, &mut store, &mut client, true).unwrap();
    assert_eq!(client.calls, 1);
    assert_eq!(a, b);
}

#[test]
fn search_takes_the_key_from_the_environment() {
    let mut store = MemoryStore::new();
    let p = project(&mut store);
    let mut client = CountingClient { calls: 0, status: 200, seen: Vec::new() };
    let e = env(vec![("OTHER", "x")], vec![]);
    search("q").execute("SEARCH", &e, "q", Some(String::from("from-env")), &p, &mut store, &mut client).unwrap();
    assert_eq!(client.seen, vec![String::from("https://serpapi.com/search?q=q&engine=google&api_key=from-env")]);
}

#[test]
fn search_without_cache_sends_every_time() {
    let mut store = MemoryStore::new();
    let p = project(&mut store);
    let mut client = CountingClient { calls: 0, status: 200, seen: Vec::new() };
    let e = env(vec![("SERP_API_KEY", "k")], vec![("SEARCH", "{\"use_cache\":false}")]);
    let a = search("q").execute("SEARCH", &e, "q", None, &p, &mut store, &mut client).unwrap();
    let b = search("q").execute("SEARCH", &e, "q", None, &p, &mut store, &mut client).unwrap();
    assert_eq!(client.calls, 2);
    assert_ne!(a, b);
    let other = search("q").execute("OTHER", &e, "q", None, &p, &mut store, &mut client).unwrap();
    assert_eq!(client.calls, 2);
    assert_eq!(other, b);
}

#[test]
fn search_fails_on_a_status_other_than_200() {
    let mut store = MemoryStore::new();
    let p = project(&mut store);
    let mut client = CountingClient { calls: 0, status: 429, seen: Vec::new() };
    let e = env(vec![("SERP_API_KEY", "k")], vec![]);
    let first = search("q").execute("SEARCH", &e, "q", None, &p, &mut store, &mut client);
    assert_eq!(first.err(), Some(BlockError::SearchStatus { status: 429 }));
    let second = search("q").execute("SEARCH", &e, "q", None, &p, &mut store, &mut client);
    assert_eq!(second.err(), Some(BlockError::SearchStatus { status: 429 }));
    assert_eq!(client.calls, 1);
}

#[test]
fn search_reports_a_client_that_fails() {
    let mut store = MemoryStore::new();
    let p = project(&mut store);
    let e = env(vec![("SERP_API_KEY", "k")], vec![]);
    let r = search("q").execute("SEARCH", &e, "q", None, &p, &mut store, &mut BrokenClient {});
    match r {
        Err(e) => {
            assert_eq!(e, BlockError::Http { message: String::from("connection refused") });
            assert_eq!(e.message(), "connection refused");
        }
        Ok(_) => panic!("an answer came from nowhere"),
    }
}

/// An evaluator that counts its calls and says whether the iteration is below a bound.
struct Below {
    bound: usize,
    calls: usize,
    codes: Vec<String>,
}

impl Evaluator for Below {
    fn evaluate(&mut self, code: &str, env: &Env) -> Result<JsonValue, String> {
        self.calls += 1;
        self.codes.push(String::from(code));
        Ok(JsonValue::Bool(env.map.as_ref().unwrap().iteration < self.bound))
    }
}

struct Throwing {}

impl Evaluator for Throwing {
    fn evaluate(&mut self, _code: &str, _env: &Env) -> Result<JsonValue, String> {
        Err(String::from("TypeError: x is undefined"))
    }
}

struct Numbering {}

impl Evaluator for Numbering {
    fn evaluate(&mut self, _code: &str, _env: &Env) -> Result<JsonValue, String> {
        Ok(JsonValue::Number(String::from("1")))
    }
}

fn while_block(code: &str, max: &str) -> While {
    While::parse(&vec![
        BlockItem::Pair { key: String::from("condition_code"), value: String::from(code) },
        BlockItem::Pair { key: String::from("max_iterations"), value: String::from(max) },
    ])
    .ok()
    .unwrap()
}

fn at(iteration: usize) -> Env {
    let mut e = env(vec![], vec![]);
    e.map = Some(MapState { name: String::from("LOOP"), iteration, value: None });
    e
}

fn iterations(block: &While, evaluator: &mut Below) -> usize {
    let mut iteration = 0;
    while block.execute("LOOP", &at(iteration), evaluator) == Ok(JsonValue::Bool(true)) {
        iteration += 1;
    }
    iteration
}

#[test]
fn while_executes_three_iterations() {
    let block = while_block("_fun=(env)=>env.map.iteration<3", "5");
    let mut evaluator = Below { bound: 3, calls: 0, codes: Vec::new() };
    assert_eq!(iterations(&block, &mut evaluator), 3);
    assert_eq!(evaluator.calls, 4);
    assert!(evaluator.codes.iter().all(|c| c == "_fun=(env)=>env.map.iteration<3"));
}

#[test]
fn while_never_goes_beyond_its_limit() {
    let block = while_block("c", "5");
    let mut evaluator = Below { bound: 100, calls: 0, codes: Vec::new() };
    assert_eq!(iterations(&block, &mut evaluator), 5);
    assert_eq!(evaluator.calls, 5);
}

#[test]
fn while_with_limit_zero_evaluates_nothing() {
    let block = while_block("c", "0");
    let mut evaluator = Below { bound: 100, calls: 0, codes: Vec::new() };
    assert_eq!(block.execute("LOOP", &at(0), &mut evaluator), Ok(JsonValue::Bool(false)));
    assert_eq!(iterations(&block, &mut evaluator), 0);
    assert_eq!(evaluator.calls, 0);
}

#[test]
fn while_evaluates_the_code_with_backticks_put_in() {
    let block = while_block("_fun = () => `<DUST_TRIPLE_BACKTICKS>x<DUST_TRIPLE_BACKTICKS>`", "2");
    let mut evaluator = Below { bound: 1, calls: 0, codes: Vec::new() };
    block.execute("LOOP", &at(0), &mut evaluator).unwrap();
    assert_eq!(evaluator.codes, vec![String::from("_fun = () => ````x````")]);
}

#[test]
fn while_reports_an_evaluation_that_fails() {
    let block = while_block("c", "2");
    assert_eq!(
        block.execute("LOOP", &at(0), &mut Throwing {}),
        Err(BlockError::Condition { reason: String::from("TypeError: x is undefined") })
    );
    assert_eq!(block.execute("LOOP", &at(0), &mut Numbering {}), Err(BlockError::ConditionNotBoolean));
    assert_eq!(block.execute("LOOP", &at(2), &mut Throwing {}), Ok(JsonValue::Bool(false)));
}

/// An executor whose one block behind the root is a language model with a cache.
/// An evaluator that fails on the first input and says `true` for any other.
struct FailsOnFirst {}

impl Evaluator for FailsOnFirst {
    fn evaluate(&mut self, _code: &str, env: &Env) -> Result<JsonValue, String> {
        if env.input.index == 0 {
            Err(String::from("ReferenceError: y is not defined"))
        } else {
            Ok(JsonValue::Bool(true))
        }
    }
}

#[test]
fn while_failure_for_one_row_leaves_the_next_row_alone() {
    let block = while_block("_fun = (env) => env.input.y > 0", "5");
    let mut first = at(0);
    first.input.index = 0;
    let mut second = at(0);
    second.input.index = 1;
    let alone = block.execute("LOOP", &second, &mut FailsOnFirst {});
    let mut evaluator = FailsOnFirst {};
    let failed = block.execute("LOOP", &first, &mut evaluator);
    assert!(matches!(failed, Err(BlockError::Condition { .. })));
    let after = block.execute("LOOP", &second, &mut evaluator);
    assert_eq!(after, Ok(JsonValue::Bool(true)));
    assert_eq!(after, alone);
    assert_eq!(block.condition_code(), "_fun = (env) => env.input.y > 0");
    assert_eq!(block.max_iterations(), 5);
}

struct ModelApp {
    store: MemoryStore,
    project: Project,
    provider: CountingProvider,
}

impl dust::engine::Executor for ModelApp {
    fn execute(&mut self, _position: usize, envs: &Vec<Env>) -> Vec<dust::engine::Outcome> {
        envs.iter()
            .map(|env| {
                let text = match env.input.value.as_ref().unwrap().get("q") {
                    Some(JsonValue::String(q)) => q.clone(),
                    _ => String::new(),
                };
                match prompt(&text).execute_with_cache(&self.project, &mut self.store, &mut self.provider, true) {
                    Ok(generation) => dust::engine::Outcome::Value {
                        value: JsonValue::String(generation.completions[0].clone()),
                    },
                    Err(_) => dust::engine::Outcome::Failed { error: String::from("no generation") },
                }
            })
            .collect()
    }

    fn settled(
        &mut self,
        _position: usize,
        _executions: &Vec<Vec<dust::run::BlockExecution>>,
    ) -> Result<(), String> {
        Ok(())
    }
}

#[test]
fn second_run_of_a_model_app_calls_no_provider() {
    let root = dust::app::AppBlock::root(
        "root",
        &dust::blocks::root::Root::parse(&Vec::new()).ok().unwrap(),
    );
    let model = dust::app::AppBlock::new(dust::blocks::block::BlockType::LLM, "model", "h");
    let app = dust::app::App::new(vec![root, model]).unwrap();
    let inputs: Vec<JsonValue> =
        ["{\"q\":\"a\"}", "{\"q\":\"b\"}", "{\"q\":\"c\"}"].iter().map(|t| read(t).unwrap().into_value()).collect();
    let mut store = MemoryStore::new();
    let p = project(&mut store);
    let mut executor = ModelApp { store, project: p, provider: CountingProvider { calls: 0 } };
    let config = RunConfig { blocks: Vec::new() };
    let first = dust::engine::run(&app, &inputs, &config, &Vec::new(), &mut executor);
    assert_eq!(executor.provider.calls, inputs.len());
    executor.provider.calls = 0;
    let second = dust::engine::run(&app, &inputs, &config, &Vec::new(), &mut executor);
    assert_eq!(executor.provider.calls, 0);
    for n in 0..inputs.len() {
        assert_eq!(first.traces[1].executions[n][0].value, second.traces[1].executions[n][0].value);
    }
    assert_eq!(second.traces[1].executions[1][0].value, Some(JsonValue::String(String::from("B"))));
}
