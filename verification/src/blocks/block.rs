//! What all blocks share: their types, the text they are parsed from, the environment they
//! execute in, and the errors they report.

use crate::hashing::{content_hash, is_lower_hex};
use crate::json::{Entry, Json, JsonValue, Member};
use crate::text::{chars_of, push_char, same_text, to_decimal};
use vstd::prelude::*;
use vstd::string::StringExecFns;

verus! {

/// The kinds of block.
#[derive(Clone, Copy, Debug, PartialEq, Eq, Structural)]
pub enum BlockType {
    Root,
    Data,
    Code,
    LLM,
    MapEach,
    Reduce,
    While,
    End,
    Search,
    Curl,
}

impl BlockType {
    /// The keyword that names the kind in an app's text and in its hashes.
    pub open spec fn keyword(self) -> Seq<char> {
        match self {
            BlockType::Root => "root"@,
            BlockType::Data => "data"@,
            BlockType::Code => "code"@,
            BlockType::LLM => "llm"@,
            BlockType::MapEach => "map"@,
            BlockType::Reduce => "reduce"@,
            BlockType::While => "while"@,
            BlockType::End => "end"@,
            BlockType::Search => "search"@,
            BlockType::Curl => "curl"@,
        }
    }

    /// The keyword as a string.
    pub fn as_str(&self) -> (k: &'static str)
        ensures
            k@ == self.keyword(),
    {
        match self {
            BlockType::Root => "root",
            BlockType::Data => "data",
            BlockType::Code => "code",
            BlockType::LLM => "llm",
            BlockType::MapEach => "map",
            BlockType::Reduce => "reduce",
            BlockType::While => "while",
            BlockType::End => "end",
            BlockType::Search => "search",
            BlockType::Curl => "curl",
        }
    }
}

/// One item of a block's body, as the app's text gives it.
#[derive(Debug, PartialEq, Eq)]
pub enum BlockItem {
    /// A parameter: `key: value`.
    Pair { key: String, value: String },
    /// An `expected` clause.
    Expected,
    /// A parameter whose text could not be read; the reason is the reader's.
    Unreadable { reason: String },
}

/// The mathematical form of a [`BlockItem`].
pub enum Item {
    Pair { key: Seq<char>, value: Seq<char> },
    Expected,
    Unreadable { reason: Seq<char> },
}

impl View for BlockItem {
    type V = Item;

    open spec fn view(&self) -> Item {
        match self {
            BlockItem::Pair { key, value } => Item::Pair { key: key@, value: value@ },
            BlockItem::Expected => Item::Expected,
            BlockItem::Unreadable { reason } => Item::Unreadable { reason: reason@ },
        }
    }
}

/// Whether a text is a multi-line string as an app writes it: three backticks and a line
/// break, the value, and a line break and three backticks.
pub open spec fn is_multiline(text: Seq<char>) -> bool {
    text.len() >= 8 && text[text.len() - 4] == '\n'
}

/// The parameter `key` whose value is written as the multi-line string `text`: the value is
/// what stands between the delimiters; a text that does not end as such a string does is
/// unreadable.
pub open spec fn multiline_item(key: Seq<char>, text: Seq<char>) -> Item {
    if is_multiline(text) {
        Item::Pair { key, value: text.subrange(4, text.len() - 4) }
    } else {
        Item::Unreadable { reason: "Multine string values are expected to end with '\\n```'"@ }
    }
}

impl BlockItem {
    /// The parameter `key` whose value is written as the multi-line string `text`.
    pub fn multiline(key: &str, text: &str) -> (item: BlockItem)
        ensures
            item@ == multiline_item(key@, text@),
    {
        let chars = chars_of(text);
        if chars.len() < 8 || chars[chars.len() - 4] != '\n' {
            return BlockItem::Unreadable {
                reason: String::from_str("Multine string values are expected to end with '\\n```'"),
            };
        }
        let end = chars.len() - 4;
        let mut value = String::new();
        let mut i: usize = 4;
        assert(chars@.subrange(4, 4) =~= Seq::empty());
        while i < end
            invariant
                4 <= i <= end,
                end == chars@.len() - 4,
                value@ == chars@.subrange(4, i as int),
            decreases end - i,
        {
            push_char(&mut value, chars[i]);
            assert(chars@.subrange(4, i + 1) =~= chars@.subrange(4, i as int).push(chars@[i as int]));
            i += 1;
        }
        BlockItem::Pair { key: String::from_str(key), value }
    }
}

/// The items of a body, in mathematical form.
pub open spec fn items_view(items: Seq<BlockItem>) -> Seq<Item> {
    Seq::new(items.len(), |i: int| items[i]@)
}

/// The value of the last parameter written under `key`, if there is one.
pub open spec fn last_value(items: Seq<Item>, key: Seq<char>) -> Option<Seq<char>>
    decreases items.len(),
{
    if items.len() == 0 {
        None
    } else {
        match items.last() {
            Item::Pair { key: k, value } if k == key => Some(value),
            _ => last_value(items.drop_last(), key),
        }
    }
}

/// The refusal of the first item that is refused, where `refused` says which items are.
pub open spec fn first_refusal(items: Seq<Item>, refused: spec_fn(Item) -> Option<Refusal>) -> Option<
    Refusal,
>
    decreases items.len(),
{
    if items.len() == 0 {
        None
    } else {
        match refused(items[0]) {
            Some(refusal) => Some(refusal),
            None => first_refusal(items.subrange(1, items.len() as int), refused),
        }
    }
}

/// Why a block's body was refused.
#[derive(Debug, PartialEq, Eq)]
pub enum ParseError {
    /// A parameter could not be read.
    Unreadable { reason: String },
    /// A parameter that the block does not have.
    UnexpectedKey { block: BlockType, key: String },
    /// An `expected` clause in a block that takes none.
    ExpectedUnsupported { block: BlockType },
    /// A parameter that the block needs is missing.
    MissingKey { block: BlockType, key: String },
    /// `max_iterations` of a `while` block is no unsigned integer.
    InvalidMaxIterations,
    /// `max_iterations` of a `while` block is greater than 32.
    MaxIterationsTooLarge,
}

/// The mathematical form of a [`ParseError`].
pub enum Refusal {
    Unreadable { reason: Seq<char> },
    UnexpectedKey { block: BlockType, key: Seq<char> },
    ExpectedUnsupported { block: BlockType },
    MissingKey { block: BlockType, key: Seq<char> },
    InvalidMaxIterations,
    MaxIterationsTooLarge,
}

impl View for ParseError {
    type V = Refusal;

    open spec fn view(&self) -> Refusal {
        match self {
            ParseError::Unreadable { reason } => Refusal::Unreadable { reason: reason@ },
            ParseError::UnexpectedKey { block, key } => Refusal::UnexpectedKey {
                block: *block,
                key: key@,
            },
            ParseError::ExpectedUnsupported { block } => Refusal::ExpectedUnsupported {
                block: *block,
            },
            ParseError::MissingKey { block, key } => Refusal::MissingKey { block: *block, key: key@ },
            ParseError::InvalidMaxIterations => Refusal::InvalidMaxIterations,
            ParseError::MaxIterationsTooLarge => Refusal::MaxIterationsTooLarge,
        }
    }
}

impl Refusal {
    /// The message of a refusal.
    pub open spec fn message(self) -> Seq<char> {
        match self {
            Refusal::Unreadable { reason } => reason,
            Refusal::UnexpectedKey { block, key } => "Unexpected `"@ + key + "` in `"@
                + block.keyword() + "` block"@,
            Refusal::ExpectedUnsupported { block } => "`expected` is not yet supported in `"@
                + block.keyword() + "` block"@,
            Refusal::MissingKey { block, key } => "Missing required `"@ + key + "` in `"@
                + block.keyword() + "` block"@,
            Refusal::InvalidMaxIterations =>
                "Invalid `max_iterations` in `while` block, expecting unsigned integer"@,
            Refusal::MaxIterationsTooLarge => "`max_iterations` cannot be greater than 32"@,
        }
    }
}

impl ParseError {
    /// The message to show for this error.
    pub fn message(&self) -> (m: String)
        ensures
            m@ == self@.message(),
    {
        match self {
            ParseError::Unreadable { reason } => reason.clone(),
            ParseError::UnexpectedKey { block, key } => {
                let mut m = String::from_str("Unexpected `");
                m.append(key.as_str());
                m.append("` in `");
                m.append(block.as_str());
                m.append("` block");
                m
            },
            ParseError::ExpectedUnsupported { block } => {
                let mut m = String::from_str("`expected` is not yet supported in `");
                m.append(block.as_str());
                m.append("` block");
                m
            },
            ParseError::MissingKey { block, key } => {
                let mut m = String::from_str("Missing required `");
                m.append(key.as_str());
                m.append("` in `");
                m.append(block.as_str());
                m.append("` block");
                m
            },
            ParseError::InvalidMaxIterations => String::from_str(
                "Invalid `max_iterations` in `while` block, expecting unsigned integer",
            ),
            ParseError::MaxIterationsTooLarge => String::from_str(
                "`max_iterations` cannot be greater than 32",
            ),
        }
    }
}

/// What every block offers besides its execution.
pub trait Block {
    /// The kind of the block.
    spec fn kind(&self) -> BlockType;

    /// The condition on which the block runs, if it has one.
    spec fn condition(&self) -> Option<Seq<char>>;

    /// The bytes that are hashed for the block: its keyword, then its parameters.
    spec fn hashed(&self) -> Seq<u8>;

    /// The kind of the block.
    fn block_type(&self) -> (t: BlockType)
        ensures
            t == self.kind(),
    ;

    /// The condition on which the block runs, if it has one.
    fn run_if(&self) -> (r: Option<String>)
        ensures
            r.deep_view() == self.condition(),
    ;

    /// The hash of the block's parameters, as 64 lowercase hexadecimal digits.
    fn inner_hash(&self) -> (h: String)
        ensures
            h@ == content_hash(self.hashed()),
            h@.len() == 64,
            forall|i: int| 0 <= i < h@.len() ==> is_lower_hex(#[trigger] h@[i]),
    ;
}

/// Why the execution of a block failed for one row.
#[derive(Debug, PartialEq, Eq)]
pub enum BlockError {
    /// A credential is found neither among the run's credentials nor in the environment.
    MissingCredential { name: String },
    /// The search service answered with a status other than 200.
    SearchStatus { status: u16 },
    /// The condition of a `while` block could not be evaluated; the reason is the evaluator's.
    Condition { reason: String },
    /// The condition of a `while` block gave a value that is no boolean.
    ConditionNotBoolean,
    /// The store failed; the message is the store's.
    Store { message: String },
    /// A request could not be sent, or no answer came; the message is the client's.
    Http { message: String },
}

/// The mathematical form of a [`BlockError`].
pub enum Failure {
    MissingCredential { name: Seq<char> },
    SearchStatus { status: u16 },
    Condition { reason: Seq<char> },
    ConditionNotBoolean,
    Store { message: Seq<char> },
    Http { message: Seq<char> },
}

impl View for BlockError {
    type V = Failure;

    open spec fn view(&self) -> Failure {
        match self {
            BlockError::MissingCredential { name } => Failure::MissingCredential { name: name@ },
            BlockError::SearchStatus { status } => Failure::SearchStatus { status: *status },
            BlockError::Condition { reason } => Failure::Condition { reason: reason@ },
            BlockError::ConditionNotBoolean => Failure::ConditionNotBoolean,
            BlockError::Store { message } => Failure::Store { message: message@ },
            BlockError::Http { message } => Failure::Http { message: message@ },
        }
    }
}

impl Failure {
    /// The message of a failure.
    pub open spec fn message(self) -> Seq<char> {
        match self {
            Failure::MissingCredential { name } => "Credentials or environment variable `"@ + name
                + "` is not set."@,
            Failure::SearchStatus { status } =>
                "SerpAPIError: Unexpected error with HTTP status "@ + crate::text::decimal(
                    status as nat,
                ),
            Failure::Condition { reason } => "Error in `condition_code`: "@ + reason,
            Failure::ConditionNotBoolean =>
                "Invalid return value from `condition_code`, expecting boolean"@,
            Failure::Store { message } => message,
            Failure::Http { message } => message,
        }
    }
}

impl BlockError {
    /// The message to show for this error.
    pub fn message(&self) -> (m: String)
        ensures
            m@ == self@.message(),
    {
        match self {
            BlockError::MissingCredential { name } => {
                let mut m = String::from_str("Credentials or environment variable `");
                m.append(name.as_str());
                m.append("` is not set.");
                m
            },
            BlockError::SearchStatus { status } => {
                let mut m = String::from_str("SerpAPIError: Unexpected error with HTTP status ");
                let number = to_decimal(*status as u64);
                m.append(number.as_str());
                m
            },
            BlockError::Condition { reason } => {
                let mut m = String::from_str("Error in `condition_code`: ");
                m.append(reason.as_str());
                m
            },
            BlockError::ConditionNotBoolean => String::from_str(
                "Invalid return value from `condition_code`, expecting boolean",
            ),
            BlockError::Store { message } => message.clone(),
            BlockError::Http { message } => message.clone(),
        }
    }
}

/// The input that a block executes on: one record of the dataset and its position.
pub struct InputState {
    pub value: Option<JsonValue>,
    pub index: usize,
}

/// Where an execution stands inside a `map` or `while` scope.
pub struct MapState {
    pub name: String,
    pub iteration: usize,
    pub value: Option<JsonValue>,
}

/// The options that a run gives to one block.
pub struct BlockConfig {
    pub block: String,
    pub options: JsonValue,
}

/// The options of a run, block by block.
pub struct RunConfig {
    pub blocks: Vec<BlockConfig>,
}

/// The output of a block that has executed.
pub struct Output {
    pub block: String,
    pub value: JsonValue,
}

/// A credential that the caller of a run supplies.
pub struct Credential {
    pub name: String,
    pub secret: String,
}

/// What a block sees when it executes.
pub struct Env {
    pub config: RunConfig,
    pub state: Vec<Output>,
    pub input: InputState,
    pub map: Option<MapState>,
    pub credentials: Vec<Credential>,
}

/// The options of the first entry written for `block`.
pub open spec fn options_of(blocks: Seq<BlockConfig>, block: Seq<char>) -> Option<Json>
    decreases blocks.len(),
{
    if blocks.len() == 0 {
        None
    } else if blocks[0].block@ == block {
        Some(blocks[0].options@)
    } else {
        options_of(blocks.subrange(1, blocks.len() as int), block)
    }
}

/// Whether a block with these options uses the cache: `use_cache` where the options are an
/// object that holds it as a boolean, `true` otherwise.
pub open spec fn cache_enabled(options: Option<Json>) -> bool {
    match options {
        Some(o) => match o.get("use_cache"@) {
            Some(Json::Bool(b)) => b,
            _ => true,
        },
        None => true,
    }
}

/// The secret of the first credential written under `name`.
pub open spec fn secret_of(credentials: Seq<Credential>, name: Seq<char>) -> Option<Seq<char>>
    decreases credentials.len(),
{
    if credentials.len() == 0 {
        None
    } else if credentials[0].name@ == name {
        Some(credentials[0].secret@)
    } else {
        secret_of(credentials.subrange(1, credentials.len() as int), name)
    }
}

/// The options of a run as members of an object, block by block.
pub open spec fn config_entries(blocks: Seq<BlockConfig>) -> Seq<Entry> {
    Seq::new(blocks.len(), |i: int| Entry { key: blocks[i].block@, value: blocks[i].options@ })
}

/// The outputs of the blocks that have executed as members of an object, block by block.
pub open spec fn state_entries(state: Seq<Output>) -> Seq<Entry> {
    Seq::new(state.len(), |i: int| Entry { key: state[i].block@, value: state[i].value@ })
}

/// A value that may be absent, as JSON: itself, or `null`.
pub open spec fn or_null(value: Option<JsonValue>) -> Json {
    match value {
        Some(value) => value@,
        None => Json::Null,
    }
}

/// Where an execution stands in a scope, as JSON: an object with the scope's name, the
/// iteration, and the value where there is one; `null` outside any scope.
pub open spec fn scope_json(map: Option<MapState>) -> Json {
    match map {
        None => Json::Null,
        Some(scope) => {
            let base = seq![
                Entry { key: "name"@, value: Json::String(scope.name@) },
                Entry {
                    key: "iteration"@,
                    value: Json::Number(crate::text::decimal(scope.iteration as nat)),
                },
            ];
            match scope.value {
                Some(value) => Json::Object(base.push(Entry { key: "value"@, value: value@ })),
                None => Json::Object(base),
            }
        },
    }
}

/// What the code of a block sees of an environment: the options of the run, the outputs of
/// the blocks that have executed, the input, and the scope. The credentials are not in it.
pub open spec fn code_view(
    config: Seq<BlockConfig>,
    state: Seq<Output>,
    input: InputState,
    map: Option<MapState>,
) -> Json {
    Json::Object(
        seq![
            Entry {
                key: "config"@,
                value: Json::Object(
                    seq![Entry { key: "blocks"@, value: Json::Object(config_entries(config)) }],
                ),
            },
            Entry { key: "state"@, value: Json::Object(state_entries(state)) },
            Entry {
                key: "input"@,
                value: Json::Object(
                    seq![
                        Entry { key: "value"@, value: or_null(input.value) },
                        Entry {
                            key: "index"@,
                            value: Json::Number(crate::text::decimal(input.index as nat)),
                        },
                    ],
                ),
            },
            Entry { key: "map"@, value: scope_json(map) },
        ],
    )
}

fn member(key: &str, value: JsonValue) -> (m: Member)
    ensures
        m.key@ == key@,
        m.value@ == value@,
{
    Member { key: String::from_str(key), value }
}

fn object(members: Vec<Member>) -> (v: JsonValue)
    ensures
        v@ == Json::Object(
            Seq::new(
                members@.len(),
                |i: int| Entry { key: members@[i].key@, value: members@[i].value@ },
            ),
        ),
{
    let v = JsonValue::Object(members);
    assert(v@->Object_0 =~= Seq::new(
        members@.len(),
        |i: int| Entry { key: members@[i].key@, value: members@[i].value@ },
    ));
    v
}

impl Env {
    /// The environment as the code of a block sees it, in plain data: the credentials stay
    /// out.
    pub fn marshal(&self) -> (v: JsonValue)
        ensures
            v@ == code_view(self.config.blocks@, self.state@, self.input, self.map),
    {
        let mut config: Vec<Member> = Vec::new();
        let mut i: usize = 0;
        while i < self.config.blocks.len()
            invariant
                i <= self.config.blocks.len(),
                config@.len() == i,
                forall|k: int|
                    0 <= k < i ==> (#[trigger] config@[k]).key@ == self.config.blocks@[k].block@
                        && config@[k].value@ == self.config.blocks@[k].options@,
            decreases self.config.blocks.len() - i,
        {
            config.push(
                Member {
                    key: self.config.blocks[i].block.clone(),
                    value: self.config.blocks[i].options.clone(),
                },
            );
            i += 1;
        }
        let config = object(config);
        assert(config@->Object_0 =~= config_entries(self.config.blocks@));

        let mut state: Vec<Member> = Vec::new();
        let mut j: usize = 0;
        while j < self.state.len()
            invariant
                j <= self.state.len(),
                state@.len() == j,
                forall|k: int|
                    0 <= k < j ==> (#[trigger] state@[k]).key@ == self.state@[k].block@
                        && state@[k].value@ == self.state@[k].value@,
            decreases self.state.len() - j,
        {
            state.push(
                Member { key: self.state[j].block.clone(), value: self.state[j].value.clone() },
            );
            j += 1;
        }
        let state = object(state);
        assert(state@->Object_0 =~= state_entries(self.state@));

        let mut blocks: Vec<Member> = Vec::new();
        blocks.push(member("blocks", config));
        let blocks = object(blocks);
        assert(blocks@->Object_0 =~= seq![
            Entry { key: "blocks"@, value: Json::Object(config_entries(self.config.blocks@)) },
        ]);

        let mut input: Vec<Member> = Vec::new();
        input.push(
            member(
                "value",
                match &self.input.value {
                    Some(value) => value.clone(),
                    None => JsonValue::Null,
                },
            ),
        );
        input.push(member("index", JsonValue::Number(to_decimal(self.input.index as u64))));
        let input = object(input);
        assert(input@->Object_0 =~= seq![
            Entry { key: "value"@, value: or_null(self.input.value) },
            Entry {
                key: "index"@,
                value: Json::Number(crate::text::decimal(self.input.index as nat)),
            },
        ]);

        let map = match &self.map {
            None => JsonValue::Null,
            Some(scope) => {
                let mut map: Vec<Member> = Vec::new();
                map.push(member("name", JsonValue::String(scope.name.clone())));
                map.push(member("iteration", JsonValue::Number(to_decimal(scope.iteration as u64))));
                match &scope.value {
                    Some(value) => {
                        map.push(member("value", value.clone()));
                    },
                    None => {},
                }
                let map = object(map);
                assert(map@->Object_0 =~= scope_json(self.map)->Object_0);
                map
            },
        };

        let mut all: Vec<Member> = Vec::new();
        all.push(member("config", blocks));
        all.push(member("state", state));
        all.push(member("input", input));
        all.push(member("map", map));
        let all = object(all);
        assert(all@->Object_0 =~= code_view(
            self.config.blocks@,
            self.state@,
            self.input,
            self.map,
        )->Object_0);
        all
    }
}

impl Clone for InputState {
    fn clone(&self) -> (r: InputState)
        ensures
            or_null(r.value) == or_null(self.value),
            r.value is Some == self.value is Some,
            r.index == self.index,
    {
        InputState {
            value: match &self.value {
                Some(value) => Some(value.clone()),
                None => None,
            },
            index: self.index,
        }
    }
}

impl Clone for MapState {
    fn clone(&self) -> (r: MapState)
        ensures
            r.name@ == self.name@,
            r.iteration == self.iteration,
            or_null(r.value) == or_null(self.value),
            r.value is Some == self.value is Some,
    {
        MapState {
            name: self.name.clone(),
            iteration: self.iteration,
            value: match &self.value {
                Some(value) => Some(value.clone()),
                None => None,
            },
        }
    }
}

impl Clone for Output {
    fn clone(&self) -> (r: Output)
        ensures
            r.block@ == self.block@,
            r.value@ == self.value@,
    {
        Output { block: self.block.clone(), value: self.value.clone() }
    }
}

impl Clone for Credential {
    fn clone(&self) -> (r: Credential)
        ensures
            r.name@ == self.name@,
            r.secret@ == self.secret@,
    {
        Credential { name: self.name.clone(), secret: self.secret.clone() }
    }
}

/// Whether two environments are of the same row of the same run: they have the same
/// options, the same input under the same index, and the same secrets.
pub open spec fn same_origin(a: Env, b: Env) -> bool {
    &&& a.config.deep_view() == b.config.deep_view()
    &&& a.input.index == b.input.index
    &&& or_null(a.input.value) == or_null(b.input.value)
    &&& forall|name: Seq<char>|
        #[trigger] secret_of(a.credentials@, name) == secret_of(b.credentials@, name)
}

impl Env {
    /// The environment of the same row with another state and in another scope.
    pub fn with_scope(&self, state: Vec<Output>, map: Option<MapState>) -> (r: Env)
        ensures
            r.state == state,
            r.map == map,
            same_origin(r, *self),
    {
        let copy = self.clone();
        Env {
            config: copy.config,
            state,
            input: copy.input,
            map,
            credentials: copy.credentials,
        }
    }
}

impl Clone for Env {
    /// A copy: it looks the same to the code of a block, and holds the same credentials.
    fn clone(&self) -> (r: Env)
        ensures
            code_view(r.config.blocks@, r.state@, r.input, r.map) == code_view(
                self.config.blocks@,
                self.state@,
                self.input,
                self.map,
            ),
            r.config.deep_view() == self.config.deep_view(),
            r.input.index == self.input.index,
            or_null(r.input.value) == or_null(self.input.value),
            r.input.value is Some == self.input.value is Some,
            r.map is Some == self.map is Some,
            r.map is Some ==> r.map->0.iteration == self.map->0.iteration,
            forall|name: Seq<char>|
                secret_of(r.credentials@, name) == secret_of(self.credentials@, name),
            same_origin(r, *self),
    {
        let config = self.config.clone();
        let state = self.state.clone();
        let input = self.input.clone();
        let map = match &self.map {
            Some(scope) => Some(scope.clone()),
            None => None,
        };
        let credentials = self.credentials.clone();
        proof {
            assert(config.blocks.deep_view() == self.config.blocks.deep_view());
            assert forall|i: int| 0 <= i < config.blocks@.len() implies config.blocks@[i].block@
                == self.config.blocks@[i].block@ && config.blocks@[i].options@
                == self.config.blocks@[i].options@ by {
                assert(config.blocks.deep_view()[i] == self.config.blocks.deep_view()[i]);
            }
            assert(config.blocks@.len() == config.blocks.deep_view().len());
            assert(self.config.blocks@.len() == self.config.blocks.deep_view().len());
            assert(config_entries(config.blocks@) =~= config_entries(self.config.blocks@));
            assert forall|i: int| 0 <= i < state@.len() implies state@[i].block@
                == self.state@[i].block@ && state@[i].value@ == self.state@[i].value@ by {
                assert(cloned::<Output>(self.state@[i], state@[i]));
            }
            assert(state_entries(state@) =~= state_entries(self.state@));
            assert(scope_json(map) == scope_json(self.map));
            assert forall|i: int| 0 <= i < credentials@.len() implies credentials@[i].name@
                == self.credentials@[i].name@ && credentials@[i].secret@
                == self.credentials@[i].secret@ by {
                assert(cloned::<Credential>(self.credentials@[i], credentials@[i]));
            }
            assert forall|name: Seq<char>|
                secret_of(credentials@, name) == secret_of(self.credentials@, name) by {
                lemma_same_secrets(credentials@, self.credentials@, name);
            }
        }
        Env { config, state, input, map, credentials }
    }
}

/// A copy of the credentials: it holds the same secrets under the same names.
pub fn copy_credentials(credentials: &Vec<Credential>) -> (r: Vec<Credential>)
    ensures
        forall|name: Seq<char>| #[trigger] secret_of(r@, name) == secret_of(credentials@, name),
{
    let r = credentials.clone();
    proof {
        assert forall|i: int| 0 <= i < r@.len() implies r@[i].name@ == credentials@[i].name@
            && r@[i].secret@ == credentials@[i].secret@ by {
            assert(cloned::<Credential>(credentials@[i], r@[i]));
        }
        assert forall|name: Seq<char>| #[trigger]
            secret_of(r@, name) == secret_of(credentials@, name) by {
            lemma_same_secrets(r@, credentials@, name);
        }
    }
    r
}

proof fn lemma_same_secrets(a: Seq<Credential>, b: Seq<Credential>, name: Seq<char>)
    requires
        a.len() == b.len(),
        forall|i: int|
            0 <= i < a.len() ==> a[i].name@ == b[i].name@ && a[i].secret@ == b[i].secret@,
    ensures
        secret_of(a, name) == secret_of(b, name),
    decreases a.len(),
{
    if a.len() > 0 {
        assert(a[0].name@ == b[0].name@);
        lemma_same_secrets(a.subrange(1, a.len() as int), b.subrange(1, b.len() as int), name);
    }
}

/// What the code of a block sees does not depend on the credentials: two environments that
/// differ in nothing else look the same to it.
pub proof fn credentials_stay_out(a: Env, b: Env)
    requires
        a.config == b.config,
        a.state == b.state,
        a.input == b.input,
        a.map == b.map,
    ensures
        code_view(a.config.blocks@, a.state@, a.input, a.map) == code_view(
            b.config.blocks@,
            b.state@,
            b.input,
            b.map,
        ),
{
}

impl RunConfig {
    /// The options that the run gives to a block, if it gives any.
    pub fn config_for_block(&self, name: &str) -> (r: Option<&JsonValue>)
        ensures
            match r {
                Some(options) => options_of(self.blocks@, name@) == Some(options@),
                None => options_of(self.blocks@, name@) is None,
            },
    {
        let ghost all = self.blocks@;
        assert(all.subrange(0, all.len() as int) == all);
        let mut i: usize = 0;
        while i < self.blocks.len()
            invariant
                i <= self.blocks.len(),
                all == self.blocks@,
                options_of(all, name@) == options_of(all.subrange(i as int, all.len() as int), name@),
            decreases self.blocks.len() - i,
        {
            let ghost rest = all.subrange(i as int, all.len() as int);
            assert(rest[0] == all[i as int]);
            if same_text(self.blocks[i].block.as_str(), name) {
                return Some(&self.blocks[i].options);
            }
            assert(rest.subrange(1, rest.len() as int) == all.subrange(i + 1, all.len() as int));
            i += 1;
        }
        None
    }

    /// Whether a block uses the cache in this run.
    pub fn use_cache(&self, name: &str) -> (r: bool)
        ensures
            r == cache_enabled(options_of(self.blocks@, name@)),
    {
        match self.config_for_block(name) {
            Some(options) => match options.get("use_cache") {
                Some(value) => match value.as_bool() {
                    Some(b) => b,
                    None => true,
                },
                None => true,
            },
            None => true,
        }
    }
}

impl Env {
    /// A credential of the run. What the caller supplied comes first; where it holds none of
    /// that name, the value of the environment variable of the same name stands in, and where
    /// that is absent too the credential is missing.
    pub fn credential(&self, name: &str, environment: Option<String>) -> (r: Result<
        String,
        BlockError,
    >)
        ensures
            match secret_of(self.credentials@, name@) {
                Some(secret) => r matches Ok(s) && s@ == secret,
                None => match environment {
                    Some(value) => r matches Ok(s) && s@ == value@,
                    None => r matches Err(e) && e@ == (Failure::MissingCredential { name: name@ }),
                },
            },
    {
        let ghost all = self.credentials@;
        assert(all.subrange(0, all.len() as int) == all);
        let mut i: usize = 0;
        while i < self.credentials.len()
            invariant
                i <= self.credentials.len(),
                all == self.credentials@,
                secret_of(all, name@) == secret_of(all.subrange(i as int, all.len() as int), name@),
            decreases self.credentials.len() - i,
        {
            let ghost rest = all.subrange(i as int, all.len() as int);
            assert(rest[0] == all[i as int]);
            if same_text(self.credentials[i].name.as_str(), name) {
                return Ok(self.credentials[i].secret.clone());
            }
            assert(rest.subrange(1, rest.len() as int) == all.subrange(i + 1, all.len() as int));
            i += 1;
        }
        match environment {
            Some(value) => Ok(value),
            None => Err(BlockError::MissingCredential { name: String::from_str(name) }),
        }
    }
}

} // verus!
