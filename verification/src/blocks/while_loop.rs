//! The `while` block, which opens a loop and decides before each pass whether it goes on.

use crate::blocks::block::{
    first_refusal, items_view, last_value, Block, BlockError, BlockItem, BlockType, Env, Failure,
    Item, ParseError, Refusal,
};
use crate::hashing::{absorb, hash_bytes};
use crate::json::{Json, JsonValue};
use crate::text::{
    decimal, is_unsigned, parse_unsigned, replace_all, replaced, same_text, to_decimal,
    unsigned_value,
};
use vstd::prelude::*;
use vstd::string::StringExecFns;
use vstd::utf8::encode_utf8;

verus! {

/// The greatest number of passes that a `while` block may allow.
pub const MAX_ITERATIONS_LIMIT: usize = 32;

/// The `while` block: the code of its condition, and the number of passes it allows.
pub struct While {
    condition_code: String,
    max_iterations: usize,
}

/// The parameters of a `while` block.
pub struct WhileParams {
    pub condition_code: Seq<char>,
    pub max_iterations: nat,
}

impl View for While {
    type V = WhileParams;

    closed spec fn view(&self) -> WhileParams {
        WhileParams {
            condition_code: self.condition_code@,
            max_iterations: self.max_iterations as nat,
        }
    }
}

/// True of a text that writes a number which fits the machine word.
pub open spec fn is_word(text: Seq<char>) -> bool {
    is_unsigned(text) && unsigned_value(text) <= usize::MAX
}

/// Why a `while` block refuses an item, if it does: it takes `condition_code` and
/// `max_iterations`, the latter an unsigned integer, and nothing else.
pub open spec fn while_refuses(item: Item) -> Option<Refusal> {
    match item {
        Item::Pair { key, value } => if key == "condition_code"@ {
            None
        } else if key == "max_iterations"@ {
            if is_word(value) {
                None
            } else {
                Some(Refusal::InvalidMaxIterations)
            }
        } else {
            Some(Refusal::UnexpectedKey { block: BlockType::While, key })
        },
        Item::Expected => Some(Refusal::ExpectedUnsupported { block: BlockType::While }),
        Item::Unreadable { reason } => Some(Refusal::Unreadable { reason }),
    }
}

/// What the body of a `while` block parses to. The first item that the block refuses
/// decides; where there is none, `condition_code` and `max_iterations` must both be there,
/// and `max_iterations` must be at most 32. Of a parameter written twice the last counts.
pub open spec fn while_parsed(items: Seq<Item>) -> Result<WhileParams, Refusal> {
    match first_refusal(items, |item: Item| while_refuses(item)) {
        Some(refusal) => Err(refusal),
        None => match last_value(items, "condition_code"@) {
            None => Err(Refusal::MissingKey { block: BlockType::While, key: "condition_code"@ }),
            Some(condition_code) => match last_value(items, "max_iterations"@) {
                None => Err(
                    Refusal::MissingKey { block: BlockType::While, key: "max_iterations"@ },
                ),
                Some(text) => if unsigned_value(text) > MAX_ITERATIONS_LIMIT {
                    Err(Refusal::MaxIterationsTooLarge)
                } else {
                    Ok(WhileParams { condition_code, max_iterations: unsigned_value(text) })
                },
            },
        },
    }
}

/// What a `while` block does before a pass.
#[derive(Debug, PartialEq, Eq)]
pub enum WhileStep {
    /// The loop is over: the block's value is `false`, and nothing is evaluated.
    Exit,
    /// The condition is to be evaluated: this is its code.
    Evaluate { code: String },
}

/// The mathematical form of a [`WhileStep`].
pub enum Step {
    Exit,
    Evaluate { code: Seq<char> },
}

impl View for WhileStep {
    type V = Step;

    open spec fn view(&self) -> Step {
        match self {
            WhileStep::Exit => Step::Exit,
            WhileStep::Evaluate { code } => Step::Evaluate { code: code@ },
        }
    }
}

impl WhileParams {
    /// The code that is evaluated: the condition's, with the stand-in for three backticks
    /// replaced by them.
    pub open spec fn code(self) -> Seq<char> {
        replaced(self.condition_code, "<DUST_TRIPLE_BACKTICKS>"@, "```"@)
    }

    /// What the block does before the pass numbered `iteration`.
    pub open spec fn step(self, iteration: nat) -> Step {
        if iteration >= self.max_iterations {
            Step::Exit
        } else {
            Step::Evaluate { code: self.code() }
        }
    }
}

/// What the block returns for what the evaluation of its condition gave: the boolean, or an
/// error where the evaluation failed or gave something else.
pub open spec fn condition_outcome(evaluated: Result<Json, Seq<char>>) -> Result<bool, Failure> {
    match evaluated {
        Ok(Json::Bool(b)) => Ok(b),
        Ok(_) => Err(Failure::ConditionNotBoolean),
        Err(reason) => Err(Failure::Condition { reason }),
    }
}

impl While {
    #[verifier::type_invariant]
    spec fn bounded(&self) -> bool {
        self.max_iterations <= MAX_ITERATIONS_LIMIT
    }

    /// Parses the body of a `while` block.
    pub fn parse(items: &Vec<BlockItem>) -> (r: Result<While, ParseError>)
        ensures
            match r {
                Ok(block) => while_parsed(items_view(items@)) == Ok::<_, Refusal>(block@),
                Err(e) => while_parsed(items_view(items@)) == Err::<WhileParams, _>(e@),
            },
    {
        let ghost all = items_view(items@);
        let ghost refused = |item: Item| while_refuses(item);
        let mut condition_code: Option<String> = None;
        let mut max_iterations: Option<usize> = None;
        let mut i: usize = 0;
        assert(all.subrange(0, all.len() as int) == all);
        assert(all.take(0).len() == 0);
        while i < items.len()
            invariant
                i <= items.len(),
                all == items_view(items@),
                refused == (|item: Item| while_refuses(item)),
                first_refusal(all, refused) == first_refusal(
                    all.subrange(i as int, all.len() as int),
                    refused,
                ),
                match condition_code {
                    Some(c) => last_value(all.take(i as int), "condition_code"@) == Some(c@),
                    None => last_value(all.take(i as int), "condition_code"@) is None,
                },
                match max_iterations {
                    Some(n) => last_value(all.take(i as int), "max_iterations"@) is Some
                        && unsigned_value(last_value(all.take(i as int), "max_iterations"@)->0)
                        == n,
                    None => last_value(all.take(i as int), "max_iterations"@) is None,
                },
            decreases items.len() - i,
        {
            let ghost rest = all.subrange(i as int, all.len() as int);
            proof {
                assert(rest[0] == all[i as int]);
                assert(all[i as int] == items@[i as int]@);
                assert(rest.subrange(1, rest.len() as int) == all.subrange(i + 1, all.len() as int));
                assert(all.take(i + 1).drop_last() == all.take(i as int));
                assert(all.take(i + 1).last() == all[i as int]);
                reveal_strlit("condition_code");
                reveal_strlit("max_iterations");
                assert("condition_code"@[0] != "max_iterations"@[0]);
            }
            match &items[i] {
                BlockItem::Pair { key, value } => {
                    if same_text(key.as_str(), "condition_code") {
                        condition_code = Some(value.clone());
                    } else if same_text(key.as_str(), "max_iterations") {
                        match parse_unsigned(value.as_str()) {
                            Some(n) => {
                                max_iterations = Some(n);
                            },
                            None => {
                                return Err(ParseError::InvalidMaxIterations);
                            },
                        }
                    } else {
                        return Err(
                            ParseError::UnexpectedKey { block: BlockType::While, key: key.clone() },
                        );
                    }
                },
                BlockItem::Expected => {
                    return Err(ParseError::ExpectedUnsupported { block: BlockType::While });
                },
                BlockItem::Unreadable { reason } => {
                    return Err(ParseError::Unreadable { reason: reason.clone() });
                },
            }
            i += 1;
        }
        assert(all.take(i as int) == all);
        let condition_code = match condition_code {
            Some(code) => code,
            None => {
                return Err(
                    ParseError::MissingKey {
                        block: BlockType::While,
                        key: String::from_str("condition_code"),
                    },
                );
            },
        };
        let max_iterations = match max_iterations {
            Some(n) => n,
            None => {
                return Err(
                    ParseError::MissingKey {
                        block: BlockType::While,
                        key: String::from_str("max_iterations"),
                    },
                );
            },
        };
        if max_iterations > MAX_ITERATIONS_LIMIT {
            return Err(ParseError::MaxIterationsTooLarge);
        }
        Ok(While { condition_code, max_iterations })
    }

    /// The code of the condition, as the app's text gives it.
    pub fn condition_code(&self) -> (c: &String)
        ensures
            c@ == self@.condition_code,
    {
        &self.condition_code
    }

    /// The number of passes that the block allows. It is at most 32.
    pub fn max_iterations(&self) -> (n: usize)
        ensures
            n == self@.max_iterations,
            n <= MAX_ITERATIONS_LIMIT,
    {
        proof {
            use_type_invariant(self);
        }
        self.max_iterations
    }

    /// What the block does before a pass: it ends the loop where the passes are used up, and
    /// asks for its condition otherwise.
    pub fn prepare(&self, env: &Env) -> (step: WhileStep)
        requires
            env.map is Some,
        ensures
            step@ == self@.step(env.map->0.iteration as nat),
    {
        let iteration = match &env.map {
            Some(scope) => scope.iteration,
            None => unreached(),
        };
        if iteration >= self.max_iterations {
            WhileStep::Exit
        } else {
            WhileStep::Evaluate {
                code: replace_all(self.condition_code.as_str(), "<DUST_TRIPLE_BACKTICKS>", "```"),
            }
        }
    }

    /// The value of a block whose loop is over.
    pub fn exit_value() -> (v: JsonValue)
        ensures
            v@ == Json::Bool(false),
    {
        JsonValue::Bool(false)
    }

    /// What the block returns once its condition has been evaluated: the boolean that the
    /// evaluation gave, or the reason why there is none.
    pub fn conclude(evaluated: Result<JsonValue, String>) -> (r: Result<JsonValue, BlockError>)
        ensures
            match r {
                Ok(value) => condition_outcome(evaluated_view(evaluated)) is Ok && value@
                    == Json::Bool(condition_outcome(evaluated_view(evaluated))->Ok_0),
                Err(e) => condition_outcome(evaluated_view(evaluated)) == Err::<bool, _>(e@),
            },
    {
        match evaluated {
            Ok(JsonValue::Bool(b)) => Ok(JsonValue::Bool(b)),
            Ok(_) => Err(BlockError::ConditionNotBoolean),
            Err(reason) => Err(BlockError::Condition { reason }),
        }
    }
}

/// What evaluates the function of a piece of code on an environment. Nothing is known of
/// what it gives.
pub trait Evaluator {
    /// Evaluates the code. An error carries the evaluator's message.
    fn evaluate(&mut self, code: &str, env: &Env) -> Result<JsonValue, String>;
}

impl While {
    /// Executes the block before a pass. Where the passes are used up the value is `false`
    /// and nothing is evaluated. Otherwise the evaluator is asked once, for the code of the
    /// condition with the backticks put in and for this environment, and the block returns
    /// what [`While::conclude`] makes of what it gave: the boolean, or an error where the
    /// evaluation failed or gave something else.
    pub fn execute<E: Evaluator>(&self, _name: &str, env: &Env, evaluator: &mut E) -> (r: Result<
        JsonValue,
        BlockError,
    >)
        requires
            env.map is Some,
        ensures
            match self@.step(env.map->0.iteration as nat) {
                Step::Exit => (r matches Ok(value) && value@ == Json::Bool(false))
                    && *final(evaluator) == *old(evaluator),
                Step::Evaluate { code } => exists|
                    asked: &mut E,
                    text: &str,
                    evaluated: Result<JsonValue, String>,
                |
                    #[trigger] call_ensures(E::evaluate, (asked, text, env), evaluated) && *asked
                        == *old(evaluator) && *final(asked) == *final(evaluator) && text@ == code
                        && concluded(evaluated, r),
            },
    {
        match self.prepare(env) {
            WhileStep::Exit => Ok(While::exit_value()),
            WhileStep::Evaluate { code } => {
                let evaluated = evaluator.evaluate(code.as_str(), env);
                let ghost given = evaluated;
                let r = While::conclude(evaluated);
                assert(concluded(given, r));
                r
            },
        }
    }
}

/// Whether a result is what the block returns for what the evaluation of its condition
/// gave: the boolean that it gave, or the error that says why there is none.
pub open spec fn concluded(evaluated: Result<JsonValue, String>, r: Result<JsonValue, BlockError>) -> bool {
    match r {
        Ok(value) => condition_outcome(evaluated_view(evaluated)) is Ok && value@ == Json::Bool(
            condition_outcome(evaluated_view(evaluated))->Ok_0,
        ),
        Err(e) => condition_outcome(evaluated_view(evaluated)) == Err::<bool, _>(e@),
    }
}

/// The number of passes that a loop makes from the pass numbered `from` on, where
/// `evaluations(k)` is what the evaluation of the condition gives before pass `k`. A pass is
/// made where the block asks for its condition and the condition holds; the first pass that
/// is not made ends the loop.
pub open spec fn passes(
    params: WhileParams,
    evaluations: spec_fn(nat) -> Result<Json, Seq<char>>,
    from: nat,
) -> nat
    decreases params.max_iterations - from,
{
    if from < params.max_iterations && params.step(from) is Evaluate && condition_outcome(
        evaluations(from),
    ) == Ok::<bool, Failure>(true) {
        1 + passes(params, evaluations, from + 1)
    } else {
        0
    }
}

/// A loop never makes more passes than are left of `max_iterations`.
pub proof fn passes_bounded(
    params: WhileParams,
    evaluations: spec_fn(nat) -> Result<Json, Seq<char>>,
    from: nat,
)
    ensures
        from <= params.max_iterations ==> passes(params, evaluations, from)
            <= params.max_iterations - from,
        from >= params.max_iterations ==> passes(params, evaluations, from) == 0,
    decreases params.max_iterations - from,
{
    if from < params.max_iterations {
        passes_bounded(params, evaluations, from + 1);
    }
}

/// The loop of a `while` block that parses makes at most `max_iterations` passes, whatever
/// its condition gives, and `max_iterations` is at most 32.
pub proof fn parsed_loop_bounded(
    items: Seq<Item>,
    evaluations: spec_fn(nat) -> Result<Json, Seq<char>>,
)
    requires
        while_parsed(items) is Ok,
    ensures
        passes(while_parsed(items)->Ok_0, evaluations, 0) <= while_parsed(
            items,
        )->Ok_0.max_iterations,
        while_parsed(items)->Ok_0.max_iterations <= MAX_ITERATIONS_LIMIT,
{
    passes_bounded(while_parsed(items)->Ok_0, evaluations, 0);
}

/// With `max_iterations` 0 the block ends the loop before the first pass: nothing is
/// evaluated and no pass is made.
pub proof fn zero_iterations_no_pass(
    params: WhileParams,
    evaluations: spec_fn(nat) -> Result<Json, Seq<char>>,
)
    requires
        params.max_iterations == 0,
    ensures
        params.step(0) == Step::Exit,
        passes(params, evaluations, 0) == 0,
{
}

/// What the block returns for a row is decided by what the evaluation of its condition gives
/// for that row: where it gives the same in two calls, the block returns the same, whatever
/// an earlier call has returned.
pub proof fn conclusion_by_evaluation(
    first: Result<JsonValue, String>,
    second: Result<JsonValue, String>,
    a: Result<JsonValue, BlockError>,
    b: Result<JsonValue, BlockError>,
)
    requires
        evaluated_view(first) == evaluated_view(second),
        concluded(first, a),
        concluded(second, b),
    ensures
        match a {
            Ok(value) => b is Ok && b->Ok_0@ == value@,
            Err(e) => b is Err && b->Err_0@ == e@,
        },
{
}

/// Two `while` blocks with the same parameters have the same hash.
pub proof fn while_hash_by_parameters(a: While, b: While)
    requires
        a@ == b@,
    ensures
        a.hashed() == b.hashed(),
        crate::hashing::content_hash(a.hashed()) == crate::hashing::content_hash(b.hashed()),
{
}

/// What an evaluation gave, in mathematical form.
pub open spec fn evaluated_view(evaluated: Result<JsonValue, String>) -> Result<Json, Seq<char>> {
    match evaluated {
        Ok(value) => Ok(value@),
        Err(reason) => Err(reason@),
    }
}

impl Clone for While {
    fn clone(&self) -> (r: While)
        ensures
            r@ == self@,
    {
        proof {
            use_type_invariant(self);
        }
        While { condition_code: self.condition_code.clone(), max_iterations: self.max_iterations }
    }
}

impl Block for While {
    open spec fn kind(&self) -> BlockType {
        BlockType::While
    }

    /// A `while` block always runs.
    open spec fn condition(&self) -> Option<Seq<char>> {
        None
    }

    /// What is hashed for a `while` block: its keyword, the code of its condition, and the
    /// decimal numeral of `max_iterations`.
    open spec fn hashed(&self) -> Seq<u8> {
        encode_utf8(BlockType::While.keyword()) + encode_utf8(self@.condition_code) + encode_utf8(
            decimal(self@.max_iterations),
        )
    }

    fn block_type(&self) -> (t: BlockType) {
        BlockType::While
    }

    fn run_if(&self) -> (r: Option<String>) {
        None
    }

    fn inner_hash(&self) -> (h: String) {
        let mut buffer: Vec<u8> = Vec::new();
        absorb(&mut buffer, BlockType::While.as_str());
        absorb(&mut buffer, self.condition_code.as_str());
        let numeral = to_decimal(self.max_iterations as u64);
        absorb(&mut buffer, numeral.as_str());
        assert(buffer@ == self.hashed());
        hash_bytes(buffer.as_slice())
    }
}

} // verus!
