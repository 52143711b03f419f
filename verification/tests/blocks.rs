use dust::blocks::block::{
    Block, BlockConfig, BlockError, BlockItem, BlockType, Credential, Env, InputState, MapState,
    ParseError, RunConfig,
};
use dust::blocks::root::Root;
use dust::blocks::search::Search;
use dust::blocks::while_loop::{While, WhileStep};
use dust::http::HttpResponse;
use dust::json::{read, JsonValue, Member};

fn pair(key: &str, value: &str) -> BlockItem {
    BlockItem::Pair { key: String::from(key), value: String::from(value) }
}

fn env(input: Option<JsonValue>, map: Option<MapState>) -> Env {
    Env {
        config: RunConfig { blocks: Vec::new() },
        state: Vec::new(),
        input: InputState { value: input, index: 0 },
        map,
        credentials: Vec::new(),
    }
}

fn scope(iteration: usize) -> Option<MapState> {
    Some(MapState { name: String::from("loop"), iteration, value: None })
}

fn blake3_of(parts: &[&str]) -> String {
    let mut hasher = blake3::Hasher::new();
    for part in parts {
        hasher.update(part.as_bytes());
    }
    format!("{}", hasher.finalize().to_hex())
}

#[test]
fn block_type_keywords() {
    assert_eq!(BlockType::Root.as_str(), "root");
    assert_eq!(BlockType::Data.as_str(), "data");
    assert_eq!(BlockType::Code.as_str(), "code");
    assert_eq!(BlockType::LLM.as_str(), "llm");
    assert_eq!(BlockType::MapEach.as_str(), "map");
    assert_eq!(BlockType::Reduce.as_str(), "reduce");
    assert_eq!(BlockType::While.as_str(), "while");
    assert_eq!(BlockType::End.as_str(), "end");
    assert_eq!(BlockType::Search.as_str(), "search");
    assert_eq!(BlockType::Curl.as_str(), "curl");
}

#[test]
fn root_parses_whatever_the_body() {
    assert!(Root::parse(&Vec::new()).is_ok());
    assert!(Root::parse(&vec![pair("anything", "goes"), BlockItem::Expected]).is_ok());
}

#[test]
fn root_hash_is_that_of_its_keyword() {
    let root = Root::parse(&Vec::new()).ok().unwrap();
    assert_eq!(root.inner_hash(), blake3_of(&["root"]));
    assert_eq!(root.block_type(), BlockType::Root);
    assert!(root.run_if().is_none());
}

#[test]
fn root_returns_the_input_record() {
    let root = Root::parse(&Vec::new()).ok().unwrap();
    for line in ["{\"x\":1}", "{\"x\":2}"] {
        let record = read(line).unwrap();
        let out = root.execute("root", &env(Some(record.value().clone()), None)).ok().unwrap();
        assert_eq!(out.keys(), Some(vec![String::from("x")]));
        match (out.get("x"), record.value().get("x")) {
            (Some(JsonValue::Number(a)), Some(JsonValue::Number(b))) => assert_eq!(a, b),
            _ => panic!("the record was changed"),
        }
    }
}

#[test]
fn search_parses_query_and_engine() {
    let search = Search::parse(&vec![pair("query", "rust"), pair("engine", "bing")]).ok().unwrap();
    assert_eq!(search.query(), "rust");
    assert_eq!(search.engine(), "bing");
}

#[test]
fn search_engine_defaults_to_google() {
    let search = Search::parse(&vec![pair("query", "rust")]).ok().unwrap();
    assert_eq!(search.query(), "rust");
    assert_eq!(search.engine(), "google");
}

#[test]
fn search_takes_the_last_of_a_repeated_parameter() {
    let search = Search::parse(&vec![
        pair("query", "first"),
        pair("engine", "a"),
        pair("query", "second"),
        pair("engine", "b"),
    ])
    .ok()
    .unwrap();
    assert_eq!(search.query(), "second");
    assert_eq!(search.engine(), "b");
}

#[test]
fn search_needs_a_query() {
    match Search::parse(&vec![pair("engine", "bing")]) {
        Err(e) => {
            assert!(matches!(&e, ParseError::MissingKey { block: BlockType::Search, key } if key == "query"));
            assert_eq!(e.message(), "Missing required `query` in `search` block");
        }
        Ok(_) => panic!("parsed without a query"),
    }
    assert!(matches!(Search::parse(&Vec::new()), Err(ParseError::MissingKey { .. })));
}

#[test]
fn search_refuses_an_unknown_parameter() {
    match Search::parse(&vec![pair("query", "q"), pair("limit", "3")]) {
        Err(e) => {
            assert!(matches!(&e, ParseError::UnexpectedKey { block: BlockType::Search, key } if key == "limit"));
            assert_eq!(e.message(), "Unexpected `limit` in `search` block");
        }
        Ok(_) => panic!("parsed an unknown parameter"),
    }
}

#[test]
fn search_refuses_expected() {
    match Search::parse(&vec![pair("query", "q"), BlockItem::Expected]) {
        Err(e) => {
            assert!(matches!(e, ParseError::ExpectedUnsupported { block: BlockType::Search }));
            assert_eq!(e.message(), "`expected` is not yet supported in `search` block");
        }
        Ok(_) => panic!("parsed an expected clause"),
    }
}

#[test]
fn search_reports_the_first_refused_item() {
    let items = vec![
        BlockItem::Unreadable { reason: String::from("bad string") },
        pair("limit", "3"),
        BlockItem::Expected,
    ];
    match Search::parse(&items) {
        Err(e) => {
            assert!(matches!(&e, ParseError::Unreadable { reason } if reason == "bad string"));
            assert_eq!(e.message(), "bad string");
        }
        Ok(_) => panic!("parsed an unreadable item"),
    }
    let items = vec![BlockItem::Expected, pair("limit", "3")];
    assert!(matches!(Search::parse(&items), Err(ParseError::ExpectedUnsupported { .. })));
}

#[test]
fn search_hash_is_that_of_keyword_query_and_engine() {
    let search = Search::parse(&vec![pair("query", "what is ${X}"), pair("engine", "bing")]).ok().unwrap();
    assert_eq!(search.inner_hash(), blake3_of(&["search", "what is ${X}", "bing"]));
    assert_eq!(search.block_type(), BlockType::Search);
    assert!(search.run_if().is_none());
}

#[test]
fn blocks_with_the_same_parameters_have_the_same_hash() {
    let a = Search::parse(&vec![pair("query", "q"), pair("engine", "google")]).ok().unwrap();
    let b = Search::parse(&vec![pair("engine", "other"), pair("query", "q"), pair("engine", "google")]).ok().unwrap();
    let c = Search::parse(&vec![pair("query", "q")]).ok().unwrap();
    let d = Search::parse(&vec![pair("query", "r")]).ok().unwrap();
    assert_eq!(a.inner_hash(), b.inner_hash());
    assert_eq!(a.inner_hash(), c.inner_hash());
    assert_eq!(a.inner_hash(), a.clone().inner_hash());
    assert_ne!(a.inner_hash(), d.inner_hash());
    let w = While::parse(&vec![pair("condition_code", "c"), pair("max_iterations", "3")]).ok().unwrap();
    let x = While::parse(&vec![pair("max_iterations", "+03"), pair("condition_code", "c")]).ok().unwrap();
    assert_eq!(w.inner_hash(), x.inner_hash());
    assert_eq!(w.inner_hash(), w.clone().inner_hash());
}

#[test]
fn search_request_encodes_the_query() {
    let search = Search::parse(&vec![pair("query", "ignored here")]).ok().unwrap();
    let request = search.request("hello world & café/~x_1-2.3", "KEY");
    assert_eq!(request.method, "GET");
    assert_eq!(
        request.url,
        "https://serpapi.com/search?q=hello%20world%20%26%20caf%C3%A9%2F~x_1-2.3&engine=google&api_key=KEY"
    );
    assert!(matches!(&request.headers, JsonValue::Object(members) if members.is_empty()));
    assert!(matches!(request.body, JsonValue::Null));
}

#[test]
fn search_request_as_the_cache_knows_it_has_no_key() {
    let search = Search::parse(&vec![pair("query", "q"), pair("engine", "bing")]).ok().unwrap();
    let known = search.cached_request("a b");
    assert_eq!(known.method, "GET");
    assert_eq!(known.url, "https://serpapi.com/search?q=a%20b&engine=bing");
    assert!(matches!(&known.headers, JsonValue::Object(members) if members.is_empty()));
    assert!(matches!(known.body, JsonValue::Null));
    assert_eq!(search.request("a b", "K").url, format!("{}&api_key=K", known.url));
}

#[test]
fn search_request_names_the_engine() {
    let search = Search::parse(&vec![pair("query", "q"), pair("engine", "duckduckgo")]).ok().unwrap();
    assert_eq!(
        search.request("plain", "k").url,
        "https://serpapi.com/search?q=plain&engine=duckduckgo&api_key=k"
    );
}

#[test]
fn search_returns_the_body_of_status_200() {
    let body = JsonValue::Object(vec![Member { key: String::from("answer"), value: JsonValue::Bool(true) }]);
    match Search::response(HttpResponse { status: 200, body }) {
        Ok(value) => assert!(matches!(value.get("answer"), Some(JsonValue::Bool(true)))),
        Err(_) => panic!("status 200 was refused"),
    }
}

#[test]
fn search_fails_on_any_other_status() {
    for status in [0u16, 199, 201, 204, 404, 500] {
        match Search::response(HttpResponse { status, body: JsonValue::Null }) {
            Err(e) => {
                assert!(matches!(e, BlockError::SearchStatus { status: s } if s == status));
                assert_eq!(
                    e.message(),
                    format!("SerpAPIError: Unexpected error with HTTP status {}", status)
                );
            }
            Ok(_) => panic!("status {} was taken", status),
        }
    }
}

#[test]
fn while_parses_code_and_limit() {
    let block = While::parse(&vec![
        pair("condition_code", "_fun = (env) => env.map.iteration < 3"),
        pair("max_iterations", "5"),
    ])
    .ok()
    .unwrap();
    assert_eq!(block.condition_code(), "_fun = (env) => env.map.iteration < 3");
    assert_eq!(block.max_iterations(), 5);
    assert_eq!(block.block_type(), BlockType::While);
    assert!(block.run_if().is_none());
}

#[test]
fn while_limit_is_at_most_32() {
    let at = |n: &str| While::parse(&vec![pair("condition_code", "c"), pair("max_iterations", n)]);
    assert_eq!(at("0").ok().unwrap().max_iterations(), 0);
    assert_eq!(at("31").ok().unwrap().max_iterations(), 31);
    assert_eq!(at("32").ok().unwrap().max_iterations(), 32);
    match at("33") {
        Err(e) => {
            assert!(matches!(e, ParseError::MaxIterationsTooLarge));
            assert_eq!(e.message(), "`max_iterations` cannot be greater than 32");
        }
        Ok(_) => panic!("33 was taken"),
    }
    assert!(matches!(at("4000000000"), Err(ParseError::MaxIterationsTooLarge)));
}

#[test]
fn while_limit_must_be_an_unsigned_integer() {
    for text in ["", "abc", "-1", "1.5", "3 ", "99999999999999999999999999"] {
        match While::parse(&vec![pair("condition_code", "c"), pair("max_iterations", text)]) {
            Err(e) => {
                assert!(matches!(e, ParseError::InvalidMaxIterations), "{}", text);
                assert_eq!(
                    e.message(),
                    "Invalid `max_iterations` in `while` block, expecting unsigned integer"
                );
            }
            Ok(_) => panic!("{} was taken", text),
        }
    }
}

#[test]
fn while_reports_a_bad_limit_where_it_stands() {
    let items = vec![pair("max_iterations", "many"), pair("other", "x")];
    assert!(matches!(While::parse(&items), Err(ParseError::InvalidMaxIterations)));
    let items = vec![pair("other", "x"), pair("max_iterations", "many")];
    assert!(matches!(While::parse(&items), Err(ParseError::UnexpectedKey { .. })));
    let items = vec![pair("max_iterations", "40"), pair("other", "x")];
    assert!(matches!(While::parse(&items), Err(ParseError::UnexpectedKey { .. })));
}

#[test]
fn while_needs_both_parameters() {
    match While::parse(&vec![pair("max_iterations", "3")]) {
        Err(e) => assert_eq!(e.message(), "Missing required `condition_code` in `while` block"),
        Ok(_) => panic!("parsed without a condition"),
    }
    match While::parse(&vec![pair("condition_code", "c")]) {
        Err(e) => assert_eq!(e.message(), "Missing required `max_iterations` in `while` block"),
        Ok(_) => panic!("parsed without a limit"),
    }
    match While::parse(&Vec::new()) {
        Err(e) => assert_eq!(e.message(), "Missing required `condition_code` in `while` block"),
        Ok(_) => panic!("parsed an empty body"),
    }
}

#[test]
fn while_refuses_expected_and_unknown_parameters() {
    match While::parse(&vec![BlockItem::Expected]) {
        Err(e) => assert_eq!(e.message(), "`expected` is not yet supported in `while` block"),
        Ok(_) => panic!("parsed an expected clause"),
    }
    match While::parse(&vec![pair("condition", "c")]) {
        Err(e) => assert_eq!(e.message(), "Unexpected `condition` in `while` block"),
        Ok(_) => panic!("parsed an unknown parameter"),
    }
}

#[test]
fn while_hash_is_that_of_keyword_code_and_limit() {
    let block = While::parse(&vec![pair("condition_code", "code<DUST_TRIPLE_BACKTICKS>"), pair("max_iterations", "07")])
        .ok()
        .unwrap();
    assert_eq!(block.inner_hash(), blake3_of(&["while", "code<DUST_TRIPLE_BACKTICKS>", "7"]));
}

#[test]
fn while_asks_for_its_condition_below_the_limit() {
    let block = While::parse(&vec![
        pair("condition_code", "_fun = () => `<DUST_TRIPLE_BACKTICKS>` == ''"),
        pair("max_iterations", "2"),
    ])
    .ok()
    .unwrap();
    for iteration in [0usize, 1] {
        match block.prepare(&env(None, scope(iteration))) {
            WhileStep::Evaluate { code } => assert_eq!(code, "_fun = () => ````` == ''"),
            WhileStep::Exit => panic!("the loop ended early"),
        }
    }
    for iteration in [2usize, 3, 31, 1000] {
        assert!(matches!(block.prepare(&env(None, scope(iteration))), WhileStep::Exit));
    }
    assert!(matches!(While::exit_value(), JsonValue::Bool(false)));
}

#[test]
fn while_with_no_iterations_never_evaluates() {
    let block = While::parse(&vec![pair("condition_code", "c"), pair("max_iterations", "0")]).ok().unwrap();
    assert!(matches!(block.prepare(&env(None, scope(0))), WhileStep::Exit));
}

#[test]
fn while_concludes_on_booleans_only() {
    assert!(matches!(While::conclude(Ok(JsonValue::Bool(true))), Ok(JsonValue::Bool(true))));
    assert!(matches!(While::conclude(Ok(JsonValue::Bool(false))), Ok(JsonValue::Bool(false))));
    for other in [JsonValue::Null, JsonValue::Number(String::from("1")), JsonValue::String(String::from("true"))] {
        match While::conclude(Ok(other)) {
            Err(e) => {
                assert!(matches!(e, BlockError::ConditionNotBoolean));
                assert_eq!(e.message(), "Invalid return value from `condition_code`, expecting boolean");
            }
            Ok(_) => panic!("took a value that is no boolean"),
        }
    }
    match While::conclude(Err(String::from("ReferenceError: x is not defined"))) {
        Err(e) => {
            assert!(matches!(&e, BlockError::Condition { reason } if reason == "ReferenceError: x is not defined"));
            assert_eq!(e.message(), "Error in `condition_code`: ReferenceError: x is not defined");
        }
        Ok(_) => panic!("took a failed evaluation"),
    }
}

fn passes(block: &While, condition: fn(usize) -> bool) -> usize {
    let mut iteration: usize = 0;
    loop {
        let goes_on = match block.prepare(&env(None, scope(iteration))) {
            WhileStep::Exit => false,
            WhileStep::Evaluate { .. } => {
                matches!(While::conclude(Ok(JsonValue::Bool(condition(iteration)))), Ok(JsonValue::Bool(true)))
            }
        };
        if !goes_on {
            return iteration;
        }
        iteration += 1;
    }
}

#[test]
fn while_counts_to_three() {
    let block = While::parse(&vec![
        pair("condition_code", "_fun=(env)=>env.map.iteration<3"),
        pair("max_iterations", "5"),
    ])
    .ok()
    .unwrap();
    assert_eq!(passes(&block, |iteration| iteration < 3), 3);
}

#[test]
fn while_stops_at_its_limit() {
    let block = While::parse(&vec![pair("condition_code", "c"), pair("max_iterations", "5")]).ok().unwrap();
    assert_eq!(passes(&block, |_| true), 5);
    let none = While::parse(&vec![pair("condition_code", "c"), pair("max_iterations", "0")]).ok().unwrap();
    assert_eq!(passes(&none, |_| true), 0);
    let most = While::parse(&vec![pair("condition_code", "c"), pair("max_iterations", "31")]).ok().unwrap();
    assert_eq!(passes(&most, |_| true), 31);
}

fn config(entries: Vec<(&str, &str)>) -> RunConfig {
    RunConfig {
        blocks: entries
            .into_iter()
            .map(|(block, options)| BlockConfig {
                block: String::from(block),
                options: read(options).unwrap().into_value(),
            })
            .collect(),
    }
}

#[test]
fn cache_is_used_unless_switched_off() {
    let run = config(vec![
        ("off", "{\"use_cache\":false}"),
        ("on", "{\"use_cache\":true}"),
        ("other", "{\"model_id\":\"m\"}"),
        ("odd", "{\"use_cache\":\"false\"}"),
        ("list", "[false]"),
        ("off", "{\"use_cache\":true}"),
    ]);
    assert!(!run.use_cache("off"));
    assert!(run.use_cache("on"));
    assert!(run.use_cache("other"));
    assert!(run.use_cache("odd"));
    assert!(run.use_cache("list"));
    assert!(run.use_cache("absent"));
    assert!(run.config_for_block("absent").is_none());
    assert!(run.config_for_block("other").unwrap().get("model_id").is_some());
}

fn with_credentials(pairs: Vec<(&str, &str)>) -> Env {
    let mut e = env(None, None);
    e.credentials = pairs
        .into_iter()
        .map(|(name, secret)| Credential { name: String::from(name), secret: String::from(secret) })
        .collect();
    e
}

#[test]
fn credential_of_the_run_comes_first() {
    let e = with_credentials(vec![("OTHER", "o"), ("SERP_API_KEY", "from-run"), ("SERP_API_KEY", "later")]);
    assert_eq!(e.credential("SERP_API_KEY", Some(String::from("from-env"))).ok().unwrap(), "from-run");
    assert_eq!(e.credential("SERP_API_KEY", None).ok().unwrap(), "from-run");
}

#[test]
fn credential_falls_back_to_the_environment() {
    let e = with_credentials(vec![("OTHER", "o")]);
    assert_eq!(e.credential("SERP_API_KEY", Some(String::from("from-env"))).ok().unwrap(), "from-env");
}

#[test]
fn credential_missing_everywhere_is_an_error() {
    let e = with_credentials(vec![("OTHER", "o")]);
    match e.credential("SERP_API_KEY", None) {
        Err(err) => {
            assert!(matches!(&err, BlockError::MissingCredential { name } if name == "SERP_API_KEY"));
            assert_eq!(err.message(), "Credentials or environment variable `SERP_API_KEY` is not set.");
        }
        Ok(_) => panic!("found a credential that is nowhere"),
    }
}

#[test]
fn code_sees_the_environment_without_credentials() {
    let mut e = with_credentials(vec![("SERP_API_KEY", "secret-value")]);
    e.config = config(vec![("MODEL", "{\"use_cache\":false}")]);
    e.state = vec![dust::blocks::block::Output {
        block: String::from("root"),
        value: read("{\"x\":1}").unwrap().into_value(),
    }];
    e.input = InputState { value: Some(read("{\"x\":1}").unwrap().into_value()), index: 7 };
    e.map = Some(MapState { name: String::from("it"), iteration: 2, value: Some(JsonValue::Bool(true)) });
    let seen = e.marshal();
    assert_eq!(seen.keys(), Some(vec![String::from("config"), String::from("state"), String::from("input"), String::from("map")]));
    assert_eq!(
        seen.get("config").unwrap().get("blocks").unwrap().get("MODEL").unwrap().get("use_cache"),
        Some(&JsonValue::Bool(false))
    );
    assert_eq!(
        seen.get("state").unwrap().get("root").unwrap().get("x"),
        Some(&JsonValue::Number(String::from("1")))
    );
    assert_eq!(seen.get("input").unwrap().get("index"), Some(&JsonValue::Number(String::from("7"))));
    assert_eq!(
        seen.get("input").unwrap().get("value").unwrap().get("x"),
        Some(&JsonValue::Number(String::from("1")))
    );
    let scope = seen.get("map").unwrap();
    assert_eq!(scope.get("name"), Some(&JsonValue::String(String::from("it"))));
    assert_eq!(scope.get("iteration"), Some(&JsonValue::Number(String::from("2"))));
    assert_eq!(scope.get("value"), Some(&JsonValue::Bool(true)));
    let open = with_credentials(vec![]);
    let mut other = with_credentials(vec![("SERP_API_KEY", "another")]);
    other.config = config(vec![("MODEL", "{\"use_cache\":false}")]);
    other.state = vec![dust::blocks::block::Output {
        block: String::from("root"),
        value: read("{\"x\":1}").unwrap().into_value(),
    }];
    other.input = InputState { value: Some(read("{\"x\":1}").unwrap().into_value()), index: 7 };
    other.map = Some(MapState { name: String::from("it"), iteration: 2, value: Some(JsonValue::Bool(true)) });
    assert!(seen.same(&other.marshal()));
    assert!(!seen.same(&open.marshal()));
    assert_eq!(open.marshal().get("map"), Some(&JsonValue::Null));
    assert_eq!(open.marshal().get("input").unwrap().get("value"), Some(&JsonValue::Null));
}

#[test]
fn copy_of_an_environment_is_the_same_to_code() {
    let mut e = with_credentials(vec![("K", "v")]);
    e.input = InputState { value: Some(read("{\"x\":[1,2]}").unwrap().into_value()), index: 3 };
    let copy = e.clone();
    assert!(copy.marshal().same(&e.marshal()));
    assert_eq!(copy.credential("K", None).ok().unwrap(), "v");
    assert_eq!(copy.input.index, 3);
}

#[test]
fn multiline_value_is_what_stands_between_the_delimiters() {
    match BlockItem::multiline("code", "```\nline one\nline two\n```") {
        BlockItem::Pair { key, value } => {
            assert_eq!(key, "code");
            assert_eq!(value, "line one\nline two");
        }
        other => panic!("not a parameter: {:?}", other),
    }
    assert_eq!(
        BlockItem::multiline("k", "```\n\n```"),
        BlockItem::Pair { key: String::from("k"), value: String::new() }
    );
    assert_eq!(
        BlockItem::multiline("k", "```\né\n```"),
        BlockItem::Pair { key: String::from("k"), value: String::from("é") }
    );
}

#[test]
fn multiline_value_must_end_with_a_line_break_and_backticks() {
    for text in ["", "```\n```", "```\nvalue```", "```\nab```x"] {
        assert_eq!(
            BlockItem::multiline("k", text),
            BlockItem::Unreadable {
                reason: String::from("Multine string values are expected to end with '\\n```'")
            }
        );
    }
}
