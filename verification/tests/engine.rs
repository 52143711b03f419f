use dust::app::{App, AppBlock, AppError};
use dust::blocks::block::{
    BlockConfig, BlockError, BlockItem, BlockType, Credential, Env, RunConfig,
};
use dust::blocks::root::Root;
use dust::blocks::while_loop::While;
use dust::engine::{outcome_of, run, Executor, Outcome, Record};
use dust::json::{read, JsonValue};
use dust::run::{BlockExecution, Status};

fn json(text: &str) -> JsonValue {
    read(text).unwrap().into_value()
}

fn number(n: i64) -> JsonValue {
    JsonValue::Number(n.to_string())
}

fn as_number(value: &JsonValue) -> i64 {
    match value {
        JsonValue::Number(n) => n.parse().unwrap(),
        _ => panic!("not a number"),
    }
}

fn output<'a>(env: &'a Env, block: &str) -> &'a JsonValue {
    &env.state.iter().find(|o| o.block == block).unwrap().value
}

fn root() -> AppBlock {
    AppBlock::root("root", &Root::parse(&Vec::new()).ok().unwrap())
}

fn code(name: &str) -> AppBlock {
    AppBlock::new(BlockType::Code, name, name)
}

fn map(name: &str) -> AppBlock {
    AppBlock::new(BlockType::MapEach, name, name)
}

fn reduce(name: &str) -> AppBlock {
    AppBlock::new(BlockType::Reduce, name, name)
}

fn end(name: &str) -> AppBlock {
    AppBlock::new(BlockType::End, name, name)
}

fn while_block(name: &str, max: &str) -> AppBlock {
    let block = While::parse(&vec![
        BlockItem::Pair { key: String::from("condition_code"), value: String::from("_fun=(env)=>env.map.iteration<3") },
        BlockItem::Pair { key: String::from("max_iterations"), value: String::from(max) },
    ])
    .ok()
    .unwrap();
    AppBlock::while_loop(name, &block)
}

/// An executor whose blocks are functions, by the position of the block.
struct Functions {
    blocks: Vec<fn(&Env) -> Outcome>,
    calls: Vec<usize>,
    settled: Vec<(usize, Vec<usize>)>,
}

impl Functions {
    fn new(blocks: Vec<fn(&Env) -> Outcome>) -> Functions {
        Functions { blocks, calls: Vec::new(), settled: Vec::new() }
    }
}

impl Executor for Functions {
    fn execute(&mut self, position: usize, envs: &Vec<Env>) -> Vec<Outcome> {
        envs.iter()
            .map(|env| {
                self.calls.push(position);
                (self.blocks[position])(env)
            })
            .collect()
    }

    fn settled(&mut self, position: usize, executions: &Vec<Vec<BlockExecution>>) -> Result<(), String> {
        self.settled.push((position, executions.iter().map(|row| row.len()).collect()));
        Ok(())
    }
}

fn unused(_env: &Env) -> Outcome {
    panic!("the engine executes this block itself")
}

fn values(record: &Record, block: usize, input: usize) -> Vec<Option<JsonValue>> {
    record.traces[block].executions[input].iter().map(|e| e.value.clone()).collect()
}

fn shape(record: &Record, block: usize) -> Vec<usize> {
    record.traces[block].executions.iter().map(|row| row.len()).collect()
}

fn go(blocks: Vec<AppBlock>, inputs: &[&str], executor: &mut Functions) -> Record {
    let app = App::new(blocks).unwrap();
    let inputs: Vec<JsonValue> = inputs.iter().map(|t| json(t)).collect();
    run(&app, &inputs, &RunConfig { blocks: Vec::new() }, &Vec::new(), executor)
}

#[test]
fn identity_app() {
    let mut executor = Functions::new(vec![unused]);
    let record = go(vec![root()], &["{\"x\":1}", "{\"x\":2}"], &mut executor);
    assert_eq!(record.status().run, Status::Succeeded);
    assert_eq!(record.traces.len(), 1);
    assert_eq!(values(&record, 0, 0), vec![Some(json("{\"x\":1}"))]);
    assert_eq!(values(&record, 0, 1), vec![Some(json("{\"x\":2}"))]);
    assert!(executor.calls.is_empty());
    assert_eq!(executor.settled, vec![(0, vec![1, 1])]);
}

fn double(env: &Env) -> Outcome {
    let x = as_number(output(env, "root").get("x").unwrap());
    Outcome::Value { value: json(&format!("{{\"y\":{}}}", x * 2)) }
}

#[test]
fn code_double() {
    let mut executor = Functions::new(vec![unused, double]);
    let record = go(vec![root(), code("dbl")], &["{\"x\":1}", "{\"x\":2}"], &mut executor);
    assert_eq!(record.traces[1].name, "dbl");
    assert_eq!(record.traces[1].block_type, BlockType::Code);
    assert_eq!(values(&record, 1, 0), vec![Some(json("{\"y\":2}"))]);
    assert_eq!(values(&record, 1, 1), vec![Some(json("{\"y\":4}"))]);
    assert_eq!(record.status().run, Status::Succeeded);
    assert_eq!(record.status().blocks[1].success_count, 2);
    assert_eq!(record.status().blocks[1].error_count, 0);
}

fn select_xs(env: &Env) -> Outcome {
    Outcome::Value { value: output(env, "root").get("xs").unwrap().clone() }
}

fn map_value(env: &Env) -> Outcome {
    Outcome::Value { value: env.map.as_ref().unwrap().value.clone().unwrap() }
}

fn after_reduce(env: &Env) -> Outcome {
    assert!(env.map.is_none());
    Outcome::Value { value: output(env, "red").clone() }
}

#[test]
fn map_reduce_collects_the_values() {
    let mut executor = Functions::new(vec![unused, select_xs, map_value, unused, after_reduce]);
    let blocks = vec![root(), map("it"), code("v"), reduce("red"), code("seen")];
    let record = go(blocks, &["{\"xs\":[10,20,30]}"], &mut executor);
    assert_eq!(record.status().run, Status::Succeeded);
    assert_eq!(values(&record, 2, 0), vec![Some(number(10)), Some(number(20)), Some(number(30))]);
    assert_eq!(values(&record, 3, 0), vec![Some(json("[10,20,30]"))]);
    assert_eq!(values(&record, 4, 0), vec![Some(json("[10,20,30]"))]);
    assert_eq!(shape(&record, 1), vec![1]);
    assert_eq!(shape(&record, 2), vec![3]);
    assert_eq!(shape(&record, 3), vec![1]);
}

#[test]
fn map_sets_the_iteration_of_each_child() {
    fn iteration(env: &Env) -> Outcome {
        let scope = env.map.as_ref().unwrap();
        assert_eq!(scope.name, "it");
        Outcome::Value { value: JsonValue::Number(scope.iteration.to_string()) }
    }
    let mut executor = Functions::new(vec![unused, select_xs, iteration, unused]);
    let blocks = vec![root(), map("it"), code("k"), reduce("red")];
    let record = go(blocks, &["{\"xs\":[\"a\",\"b\"]}", "{\"xs\":[\"c\"]}"], &mut executor);
    assert_eq!(values(&record, 2, 0), vec![Some(number(0)), Some(number(1))]);
    assert_eq!(values(&record, 2, 1), vec![Some(number(0))]);
    assert_eq!(values(&record, 3, 0), vec![Some(json("[0,1]"))]);
    assert_eq!(values(&record, 3, 1), vec![Some(json("[0]"))]);
}

#[test]
fn empty_map_has_no_children_and_reduces_to_nothing() {
    let mut executor = Functions::new(vec![unused, select_xs, map_value, unused]);
    let blocks = vec![root(), map("it"), code("v"), reduce("red")];
    let record = go(blocks, &["{\"xs\":[]}", "{\"xs\":[7]}"], &mut executor);
    assert_eq!(record.status().run, Status::Succeeded);
    assert_eq!(shape(&record, 2), vec![0, 1]);
    assert_eq!(values(&record, 3, 0), vec![Some(json("[]"))]);
    assert_eq!(values(&record, 3, 1), vec![Some(json("[7]"))]);
    assert_eq!(executor.calls.iter().filter(|p| **p == 2).count(), 1);
}

#[test]
fn map_over_what_is_no_array_fails_for_that_row() {
    let mut executor = Functions::new(vec![unused, select_xs, map_value, unused]);
    let blocks = vec![root(), map("it"), code("v"), reduce("red")];
    let record = go(blocks, &["{\"xs\":3}", "{\"xs\":[7]}"], &mut executor);
    assert_eq!(record.status().run, Status::Succeeded);
    assert!(record.traces[1].executions[0][0].error.is_some());
    assert_eq!(shape(&record, 2), vec![0, 1]);
    assert_eq!(record.traces[3].executions[0][0].value, None);
    assert_eq!(record.traces[3].executions[0][0].error, None);
    assert_eq!(values(&record, 3, 1), vec![Some(json("[7]"))]);
    assert_eq!(record.status().blocks[1].error_count, 1);
}

fn below_three(env: &Env) -> Outcome {
    Outcome::Value { value: JsonValue::Bool(env.map.as_ref().unwrap().iteration < 3) }
}

#[test]
fn while_loop_records_three_iterations() {
    let mut executor = Functions::new(vec![unused, below_three, unused]);
    let blocks = vec![root(), while_block("loop", "5"), end("done")];
    let record = go(blocks, &["{\"x\":1}"], &mut executor);
    assert_eq!(record.status().run, Status::Succeeded);
    assert_eq!(shape(&record, 2), vec![3]);
    assert_eq!(
        values(&record, 1, 0),
        vec![
            Some(JsonValue::Bool(true)),
            Some(JsonValue::Bool(true)),
            Some(JsonValue::Bool(true)),
            Some(JsonValue::Bool(false))
        ]
    );
}

fn iteration_of(env: &Env) -> Outcome {
    Outcome::Value { value: JsonValue::Number(env.map.as_ref().unwrap().iteration.to_string()) }
}

#[test]
fn while_body_runs_once_a_pass() {
    let mut executor = Functions::new(vec![unused, below_three, iteration_of, unused, double]);
    let blocks = vec![root(), while_block("loop", "5"), code("step"), end("done"), code("dbl")];
    let record = go(blocks, &["{\"x\":1}", "{\"x\":5}"], &mut executor);
    for input in 0..2 {
        assert_eq!(values(&record, 2, input), vec![Some(number(0)), Some(number(1)), Some(number(2))]);
    }
    assert_eq!(shape(&record, 3), vec![3, 3]);
    assert_eq!(shape(&record, 4), vec![1, 1]);
    assert_eq!(values(&record, 4, 1), vec![Some(json("{\"y\":10}"))]);
}

#[test]
fn while_stops_at_max_iterations() {
    fn always(_env: &Env) -> Outcome {
        Outcome::Value { value: JsonValue::Bool(true) }
    }
    let mut executor = Functions::new(vec![unused, always, iteration_of, unused]);
    let blocks = vec![root(), while_block("loop", "4"), code("step"), end("done")];
    let record = go(blocks, &["{\"x\":1}"], &mut executor);
    assert_eq!(shape(&record, 2), vec![4]);
    assert_eq!(shape(&record, 3), vec![4]);
    assert_eq!(shape(&record, 1), vec![5]);
    assert_eq!(record.traces[1].executions[0][4].value, Some(JsonValue::Bool(false)));
    assert_eq!(executor.calls.iter().filter(|p| **p == 1).count(), 4);
}

#[test]
fn while_with_no_iterations_runs_nothing() {
    let mut executor = Functions::new(vec![unused, below_three, iteration_of, unused]);
    let blocks = vec![root(), while_block("loop", "0"), code("step"), end("done")];
    let record = go(blocks, &["{\"x\":1}", "{\"x\":2}"], &mut executor);
    assert_eq!(record.status().run, Status::Succeeded);
    assert_eq!(shape(&record, 2), vec![0, 0]);
    assert_eq!(shape(&record, 3), vec![0, 0]);
    assert_eq!(values(&record, 1, 0), vec![Some(JsonValue::Bool(false))]);
    assert!(executor.calls.is_empty());
}

#[test]
fn rows_leave_a_while_one_by_one() {
    fn below_x(env: &Env) -> Outcome {
        let x = as_number(output(env, "root").get("x").unwrap()) as usize;
        Outcome::Value { value: JsonValue::Bool(env.map.as_ref().unwrap().iteration < x) }
    }
    let mut executor = Functions::new(vec![unused, below_x, iteration_of, unused, double]);
    let blocks = vec![root(), while_block("loop", "9"), code("step"), end("done"), code("dbl")];
    let record = go(blocks, &["{\"x\":2}", "{\"x\":0}", "{\"x\":4}"], &mut executor);
    assert_eq!(shape(&record, 2), vec![2, 0, 4]);
    assert_eq!(shape(&record, 3), vec![2, 0, 4]);
    assert_eq!(shape(&record, 1), vec![3, 1, 5]);
    assert_eq!(shape(&record, 4), vec![1, 1, 1]);
    assert_eq!(values(&record, 4, 1), vec![Some(json("{\"y\":0}"))]);
}

#[test]
fn while_condition_that_is_no_boolean_fails_for_that_row() {
    fn odd(env: &Env) -> Outcome {
        if as_number(output(env, "root").get("x").unwrap()) == 0 {
            Outcome::Value { value: number(1) }
        } else {
            Outcome::Value { value: JsonValue::Bool(false) }
        }
    }
    let mut executor = Functions::new(vec![unused, odd, unused]);
    let blocks = vec![root(), while_block("loop", "5"), end("done")];
    let record = go(blocks, &["{\"x\":0}", "{\"x\":1}"], &mut executor);
    assert_eq!(record.status().run, Status::Succeeded);
    assert_eq!(
        record.traces[1].executions[0][0].error,
        Some(String::from("Invalid return value from `condition_code`, expecting boolean"))
    );
    assert_eq!(values(&record, 1, 1), vec![Some(JsonValue::Bool(false))]);
    assert_eq!(record.status().blocks[1].error_count, 1);
}

fn divide(env: &Env) -> Outcome {
    let x = as_number(output(env, "root").get("x").unwrap());
    if x == 0 {
        Outcome::Failed { error: String::from("division by zero") }
    } else {
        Outcome::Value { value: number(10 / x) }
    }
}

#[test]
fn per_row_failure_is_isolated() {
    fn next(env: &Env) -> Outcome {
        Outcome::Value { value: number(as_number(output(env, "div")) + 1) }
    }
    let mut executor = Functions::new(vec![unused, divide, next]);
    let record = go(vec![root(), code("div"), code("next")], &["{\"x\":0}", "{\"x\":1}"], &mut executor);
    let status = record.status();
    assert_eq!(status.run, Status::Succeeded);
    assert_eq!(status.blocks[1].error_count, 1);
    assert_eq!(status.blocks[1].success_count, 1);
    assert_eq!(status.blocks[1].status, Status::Errored);
    assert_eq!(record.traces[1].executions[0][0].error, Some(String::from("division by zero")));
    assert_eq!(record.traces[1].executions[0][0].value, None);
    assert_eq!(values(&record, 1, 1), vec![Some(number(10))]);
    assert_eq!(shape(&record, 2), vec![1, 1]);
    assert_eq!(record.traces[2].executions[0][0].value, None);
    assert_eq!(record.traces[2].executions[0][0].error, None);
    assert_eq!(values(&record, 2, 1), vec![Some(number(11))]);
    assert_eq!(status.blocks[2].error_count, 0);
    assert_eq!(status.blocks[2].success_count, 1);
    assert_eq!(executor.calls, vec![1, 1, 2]);
}

#[test]
fn fatal_error_ends_the_run() {
    fn fatal(_env: &Env) -> Outcome {
        Outcome::Fatal { error: String::from("Credentials or environment variable `SERP_API_KEY` is not set.") }
    }
    let mut executor = Functions::new(vec![unused, fatal, double]);
    let record = go(vec![root(), code("search"), code("dbl")], &["{\"x\":1}", "{\"x\":2}"], &mut executor);
    assert_eq!(record.status().run, Status::Errored);
    assert_eq!(
        record.fatal,
        Some(String::from("Credentials or environment variable `SERP_API_KEY` is not set."))
    );
    assert_eq!(shape(&record, 2), vec![0, 0]);
    assert!(!executor.calls.contains(&2));
}

#[test]
fn executor_that_gives_too_few_outcomes_ends_the_run() {
    struct Short {}
    impl Executor for Short {
        fn execute(&mut self, _position: usize, _envs: &Vec<Env>) -> Vec<Outcome> {
            vec![Outcome::Value { value: JsonValue::Null }]
        }
        fn settled(&mut self, _position: usize, _executions: &Vec<Vec<BlockExecution>>) -> Result<(), String> {
            Ok(())
        }
    }
    let app = App::new(vec![root(), code("c")]).unwrap();
    let inputs = vec![json("{}"), json("{}")];
    let record = run(&app, &inputs, &RunConfig { blocks: Vec::new() }, &Vec::new(), &mut Short {});
    assert_eq!(record.status().run, Status::Errored);
    assert_eq!(record.traces[1].executions.len(), 2);
}

#[test]
fn store_failure_ends_the_run() {
    struct Failing {}
    impl Executor for Failing {
        fn execute(&mut self, _position: usize, envs: &Vec<Env>) -> Vec<Outcome> {
            envs.iter().map(|_| Outcome::Value { value: JsonValue::Null }).collect()
        }
        fn settled(&mut self, position: usize, _executions: &Vec<Vec<BlockExecution>>) -> Result<(), String> {
            if position == 1 {
                Err(String::from("database is locked"))
            } else {
                Ok(())
            }
        }
    }
    let app = App::new(vec![root(), code("a"), code("b")]).unwrap();
    let record = run(&app, &vec![json("{}")], &RunConfig { blocks: Vec::new() }, &Vec::new(), &mut Failing {});
    assert_eq!(record.status().run, Status::Errored);
    assert_eq!(record.fatal, Some(String::from("database is locked")));
    assert_eq!(record.traces[1].executions[0].len(), 1);
    assert_eq!(record.traces[2].executions[0].len(), 0);
}

#[test]
fn one_record_without_scopes_gives_one_execution_a_block() {
    fn constant(_env: &Env) -> Outcome {
        Outcome::Value { value: JsonValue::Null }
    }
    let mut executor = Functions::new(vec![unused, constant, divide, constant]);
    let blocks = vec![root(), code("a"), code("div"), AppBlock::new(BlockType::LLM, "model", "h")];
    let record = go(blocks, &["{\"x\":0}"], &mut executor);
    assert_eq!(record.traces.len(), 4);
    for block in 0..4 {
        assert_eq!(shape(&record, block), vec![1]);
    }
}

#[test]
fn traces_have_a_row_for_each_input() {
    let mut executor = Functions::new(vec![unused, select_xs, map_value, unused, double_len]);
    fn double_len(env: &Env) -> Outcome {
        match output(env, "red") {
            JsonValue::Array(items) => Outcome::Value { value: JsonValue::Number((2 * items.len()).to_string()) },
            _ => Outcome::Failed { error: String::from("no array") },
        }
    }
    let blocks = vec![root(), map("it"), code("v"), reduce("red"), code("len")];
    let record = go(blocks, &["{\"xs\":[1]}", "{\"xs\":[]}", "{\"xs\":[1,2,3]}"], &mut executor);
    for block in 0..5 {
        assert_eq!(record.traces[block].executions.len(), 3);
    }
    assert_eq!(shape(&record, 0), vec![1, 1, 1]);
    assert_eq!(shape(&record, 1), vec![1, 1, 1]);
    assert_eq!(shape(&record, 2), vec![1, 0, 3]);
    assert_eq!(shape(&record, 3), vec![1, 1, 1]);
    assert_eq!(shape(&record, 4), vec![1, 1, 1]);
    assert_eq!(values(&record, 4, 2), vec![Some(number(6))]);
}

#[test]
fn map_inside_while() {
    fn twice(env: &Env) -> Outcome {
        Outcome::Value { value: JsonValue::Bool(env.map.as_ref().unwrap().iteration < 2) }
    }
    let mut executor = Functions::new(vec![unused, twice, select_xs, map_value, unused, unused]);
    let blocks = vec![root(), while_block("loop", "5"), map("it"), code("v"), reduce("red"), end("done")];
    let record = go(blocks, &["{\"xs\":[1,2]}"], &mut executor);
    assert_eq!(record.status().run, Status::Succeeded);
    assert_eq!(shape(&record, 1), vec![3]);
    assert_eq!(shape(&record, 2), vec![2]);
    assert_eq!(shape(&record, 3), vec![4]);
    assert_eq!(shape(&record, 4), vec![2]);
    assert_eq!(values(&record, 4, 0), vec![Some(json("[1,2]")), Some(json("[1,2]"))]);
    assert_eq!(shape(&record, 5), vec![2]);
}

#[test]
fn apps_must_start_with_their_one_root() {
    assert_eq!(App::new(Vec::new()).err(), Some(AppError::RootMissing));
    assert_eq!(App::new(vec![code("a"), root()]).err(), Some(AppError::RootMissing));
    assert_eq!(
        App::new(vec![root(), code("a"), AppBlock::root("again", &Root::parse(&Vec::new()).ok().unwrap())]).err(),
        Some(AppError::RootRepeated { position: 2 })
    );
}

#[test]
fn block_names_are_unique() {
    assert_eq!(
        App::new(vec![root(), code("a"), code("b"), code("a")]).err(),
        Some(AppError::DuplicateName { position: 3 })
    );
    assert_eq!(App::new(vec![root(), code("root")]).err(), Some(AppError::DuplicateName { position: 1 }));
}

#[test]
fn scopes_must_be_balanced() {
    assert_eq!(App::new(vec![root(), reduce("r")]).err(), Some(AppError::Unmatched { position: 1 }));
    assert_eq!(App::new(vec![root(), end("e")]).err(), Some(AppError::Unmatched { position: 1 }));
    assert_eq!(App::new(vec![root(), map("m")]).err(), Some(AppError::Unclosed { position: 1 }));
    assert_eq!(App::new(vec![root(), map("m"), code("c")]).err(), Some(AppError::Unclosed { position: 1 }));
    assert_eq!(
        App::new(vec![root(), while_block("w", "3"), code("c")]).err(),
        Some(AppError::Unclosed { position: 1 })
    );
    assert_eq!(
        App::new(vec![root(), map("m"), end("e")]).err(),
        Some(AppError::Unmatched { position: 2 })
    );
    assert_eq!(
        App::new(vec![root(), map("m"), while_block("w", "3"), reduce("r"), end("e")]).err(),
        Some(AppError::Unmatched { position: 3 })
    );
    assert_eq!(
        App::new(vec![root(), map("m"), reduce("r"), reduce("s")]).err(),
        Some(AppError::Unmatched { position: 3 })
    );
    assert!(App::new(vec![root(), map("m"), while_block("w", "3"), end("e"), reduce("r")]).is_ok());
    assert!(App::new(vec![root(), map("m"), reduce("r"), map("n"), reduce("s")]).is_ok());
}

#[test]
fn app_hash_is_that_of_the_block_hashes() {
    let blocks = vec![root(), code("a"), code("b")];
    let hashes: Vec<String> = blocks.iter().map(|b| b.inner_hash.clone()).collect();
    let app = App::new(blocks).unwrap();
    let mut hasher = blake3::Hasher::new();
    for (i, hash) in hashes.iter().enumerate() {
        hasher.update(hash.as_bytes());
        assert_eq!(app.prefix_hash(i), &hasher.finalize().to_hex().to_string());
    }
    assert_eq!(app.hash(), app.prefix_hash(2));
    assert_eq!(app.len(), 3);
    assert_eq!(app.block(1).name, "a");
    let same = App::new(vec![root(), code("a"), code("b")]).unwrap();
    assert_eq!(app.hash(), same.hash());
    let other = App::new(vec![root(), code("a"), code("c")]).unwrap();
    assert_ne!(app.hash(), other.hash());
    assert_eq!(app.prefix_hash(1), other.prefix_hash(1));
}

#[test]
fn kept_run_is_loaded_with_its_traces() {
    let mut executor = Functions::new(vec![unused, divide]);
    let blocks = vec![root(), code("div")];
    let app = App::new(blocks).unwrap();
    let inputs = vec![json("{\"x\":0}"), json("{\"x\":5}")];
    let config = RunConfig { blocks: Vec::new() };
    let record = run(&app, &inputs, &config, &Vec::new(), &mut executor);
    let kept = record.into_run("run-1", 42, &app, &config);
    assert_eq!(&kept.app_hash, app.hash());
    assert_eq!(kept.status.run, Status::Succeeded);

    let mut store = dust::memory::MemoryStore::new();
    let project = dust::store::Store::create_project(&mut store).unwrap();
    dust::engine::keep(&mut store, &project, &kept).unwrap();
    assert!(dust::engine::keep(&mut store, &project, &kept).is_err());

    let loaded = dust::store::Store::load_run(&store, &project, "run-1", &dust::store::BlockFilter::All)
        .unwrap()
        .unwrap();
    assert_eq!(loaded.created, 42);
    assert_eq!(&loaded.app_hash, app.hash());
    assert_eq!(loaded.status.run, Status::Succeeded);
    assert_eq!(loaded.status.blocks.len(), 2);
    assert_eq!(loaded.status.blocks[1].error_count, 1);
    assert_eq!(loaded.traces.len(), 2);
    for block in 0..2 {
        assert_eq!(loaded.traces[block].name, kept.traces[block].name);
        for n in 0..2 {
            assert_eq!(loaded.traces[block].executions[n].len(), 1);
            assert_eq!(loaded.traces[block].executions[n][0].value, kept.traces[block].executions[n][0].value);
            assert_eq!(loaded.traces[block].executions[n][0].error, kept.traces[block].executions[n][0].error);
        }
    }
    let only = dust::store::BlockFilter::Block { block_type: BlockType::Code, name: String::from("div") };
    let one = dust::store::Store::load_run(&store, &project, "run-1", &only).unwrap().unwrap();
    assert_eq!(one.traces.len(), 1);
    assert_eq!(one.traces[0].executions[1][0].value, Some(number(2)));
    assert_eq!(dust::store::Store::latest_run_id(&store, &project).unwrap(), Some(String::from("run-1")));
}

#[test]
fn missing_credentials_and_store_failures_end_the_run() {
    let missing = BlockError::MissingCredential { name: String::from("SERP_API_KEY") };
    assert_eq!(
        outcome_of(Err(missing)),
        Outcome::Fatal {
            error: String::from("Credentials or environment variable `SERP_API_KEY` is not set.")
        }
    );
    let store = BlockError::Store { message: String::from("database is locked") };
    let message = store.message();
    assert_eq!(outcome_of(Err(store)), Outcome::Fatal { error: message });
}

#[test]
fn other_failures_concern_the_row_alone() {
    assert_eq!(
        outcome_of(Err(BlockError::Http { message: String::from("connection refused") })),
        Outcome::Failed { error: String::from("connection refused") }
    );
    let status = BlockError::SearchStatus { status: 429 };
    let message = status.message();
    assert_eq!(outcome_of(Err(status)), Outcome::Failed { error: message });
    assert_eq!(
        outcome_of(Err(BlockError::ConditionNotBoolean)),
        Outcome::Failed { error: BlockError::ConditionNotBoolean.message() }
    );
    assert_eq!(outcome_of(Ok(JsonValue::Bool(true))), Outcome::Value { value: JsonValue::Bool(true) });
}

#[test]
fn executor_that_gives_too_many_outcomes_ends_the_run() {
    struct Long {}
    impl Executor for Long {
        fn execute(&mut self, _position: usize, envs: &Vec<Env>) -> Vec<Outcome> {
            (0..envs.len() + 1).map(|_| Outcome::Value { value: JsonValue::Null }).collect()
        }
        fn settled(&mut self, _position: usize, _executions: &Vec<Vec<BlockExecution>>) -> Result<(), String> {
            Ok(())
        }
    }
    let app = App::new(vec![root(), code("c"), code("d")]).unwrap();
    let inputs = vec![json("{}"), json("{}")];
    let record = run(&app, &inputs, &RunConfig { blocks: Vec::new() }, &Vec::new(), &mut Long {});
    assert_eq!(record.status().run, Status::Errored);
    assert_eq!(record.fatal, Some(String::from("There are more executions than were asked for")));
    assert_eq!(shape(&record, 1), vec![1, 1]);
    assert_eq!(shape(&record, 2), vec![0, 0]);
}

#[test]
fn too_few_outcomes_are_named_as_the_reason() {
    struct Empty {}
    impl Executor for Empty {
        fn execute(&mut self, _position: usize, _envs: &Vec<Env>) -> Vec<Outcome> {
            Vec::new()
        }
        fn settled(&mut self, _position: usize, _executions: &Vec<Vec<BlockExecution>>) -> Result<(), String> {
            Ok(())
        }
    }
    let app = App::new(vec![root(), code("c")]).unwrap();
    let record = run(&app, &vec![json("{}")], &RunConfig { blocks: Vec::new() }, &Vec::new(), &mut Empty {});
    assert_eq!(record.fatal, Some(String::from("Executions are missing")));
    assert_eq!(record.status().run, Status::Errored);
}

#[test]
fn executor_is_handed_the_input_options_and_credentials_of_the_run() {
    struct Seeing {
        seen: Vec<(usize, JsonValue, usize, usize)>,
    }
    impl Executor for Seeing {
        fn execute(&mut self, _position: usize, envs: &Vec<Env>) -> Vec<Outcome> {
            envs.iter()
                .map(|env| {
                    self.seen.push((
                        env.input.index,
                        env.input.value.clone().unwrap(),
                        env.config.blocks.len(),
                        env.credentials.len(),
                    ));
                    Outcome::Value { value: JsonValue::Null }
                })
                .collect()
        }
        fn settled(&mut self, _position: usize, _executions: &Vec<Vec<BlockExecution>>) -> Result<(), String> {
            Ok(())
        }
    }
    let app = App::new(vec![root(), code("c")]).unwrap();
    let inputs = vec![json("{\"x\":1}"), json("{\"x\":2}")];
    let config = RunConfig {
        blocks: vec![BlockConfig { block: String::from("c"), options: json("{\"use_cache\":false}") }],
    };
    let credentials = vec![Credential { name: String::from("K"), secret: String::from("s") }];
    let mut executor = Seeing { seen: Vec::new() };
    let record = run(&app, &inputs, &config, &credentials, &mut executor);
    assert_eq!(record.status().run, Status::Succeeded);
    assert_eq!(
        executor.seen,
        vec![(0, json("{\"x\":1}"), 1, 1), (1, json("{\"x\":2}"), 1, 1)]
    );
}
