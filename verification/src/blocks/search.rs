//! The `search` block, which asks a search service.

use crate::blocks::block::{
    first_refusal, items_view, last_value, Block, BlockError, BlockItem, BlockType, Env, Failure,
    Item, ParseError, Refusal,
};
use crate::hashing::{absorb, hash_bytes};
use crate::blocks::block::{cache_enabled, options_of, secret_of};
use crate::http::{
    cached_answer, lookup_refused, percent_encoded, url_encode, HttpClient, HttpError,
    HttpRequest, HttpResponse, Request, Response,
};
use crate::project::Project;
use crate::store::{Store, StoreError};
use crate::json::{Json, JsonValue};
use crate::text::same_text;
use vstd::prelude::*;
use vstd::string::StringExecFns;
use vstd::utf8::encode_utf8;

verus! {

/// The error that the search service describes in its answer.
#[derive(Debug)]
pub struct Error {
    pub error: String,
}

impl Clone for Error {
    fn clone(&self) -> (r: Error)
        ensures
            r.error@ == self.error@,
    {
        Error { error: self.error.clone() }
    }
}

/// The `search` block: a query and the engine that answers it.
pub struct Search {
    query: String,
    engine: String,
}

/// The parameters of a `search` block.
pub struct SearchParams {
    pub query: Seq<char>,
    pub engine: Seq<char>,
}

impl View for Search {
    type V = SearchParams;

    closed spec fn view(&self) -> SearchParams {
        SearchParams { query: self.query@, engine: self.engine@ }
    }
}

/// Why a `search` block refuses an item, if it does: it takes `query` and `engine`, and
/// nothing else.
pub open spec fn search_refuses(item: Item) -> Option<Refusal> {
    match item {
        Item::Pair { key, value } => if key == "query"@ || key == "engine"@ {
            None
        } else {
            Some(Refusal::UnexpectedKey { block: BlockType::Search, key })
        },
        Item::Expected => Some(Refusal::ExpectedUnsupported { block: BlockType::Search }),
        Item::Unreadable { reason } => Some(Refusal::Unreadable { reason }),
    }
}

/// What the body of a `search` block parses to. The first item that the block refuses
/// decides; where there is none, `query` must be there, and `engine` is `google` unless
/// the body names another. Of a parameter written twice the last counts.
pub open spec fn search_parsed(items: Seq<Item>) -> Result<SearchParams, Refusal> {
    match first_refusal(items, |item: Item| search_refuses(item)) {
        Some(refusal) => Err(refusal),
        None => match last_value(items, "query"@) {
            None => Err(Refusal::MissingKey { block: BlockType::Search, key: "query"@ }),
            Some(query) => Ok(
                SearchParams {
                    query,
                    engine: match last_value(items, "engine"@) {
                        Some(engine) => engine,
                        None => "google"@,
                    },
                },
            ),
        },
    }
}

/// The address of a search, as the cache knows it: without the key of the service.
pub open spec fn search_address(engine: Seq<char>, query: Seq<char>) -> Seq<char> {
    "https://serpapi.com/search?q="@ + percent_encoded(encode_utf8(query)) + "&engine="@ + engine
}

/// The address that a search is sent to: the one that the cache knows, and the key.
pub open spec fn search_url(engine: Seq<char>, query: Seq<char>, api_key: Seq<char>) -> Seq<char> {
    search_address(engine, query) + "&api_key="@ + api_key
}

impl Search {
    /// Parses the body of a `search` block.
    pub fn parse(items: &Vec<BlockItem>) -> (r: Result<Search, ParseError>)
        ensures
            match r {
                Ok(search) => search_parsed(items_view(items@)) == Ok::<_, Refusal>(search@),
                Err(e) => search_parsed(items_view(items@)) == Err::<SearchParams, _>(e@),
            },
    {
        let ghost all = items_view(items@);
        let ghost refused = |item: Item| search_refuses(item);
        let mut query: Option<String> = None;
        let mut engine: Option<String> = None;
        let mut i: usize = 0;
        assert(all.subrange(0, all.len() as int) == all);
        assert(all.take(0).len() == 0);
        while i < items.len()
            invariant
                i <= items.len(),
                all == items_view(items@),
                refused == (|item: Item| search_refuses(item)),
                first_refusal(all, refused) == first_refusal(
                    all.subrange(i as int, all.len() as int),
                    refused,
                ),
                match query {
                    Some(q) => last_value(all.take(i as int), "query"@) == Some(q@),
                    None => last_value(all.take(i as int), "query"@) is None,
                },
                match engine {
                    Some(e) => last_value(all.take(i as int), "engine"@) == Some(e@),
                    None => last_value(all.take(i as int), "engine"@) is None,
                },
            decreases items.len() - i,
        {
            let ghost rest = all.subrange(i as int, all.len() as int);
            proof {
                assert(rest[0] == all[i as int]);
                assert(all[i as int] == items@[i as int]@);
                assert(rest.subrange(1, rest.len() as int) == all.subrange(i + 1, all.len() as int));
                assert(all.take(i + 1).drop_last() == all.take(i as int));
                assert(all.take(i + 1).last() == all[i as int]);
                reveal_strlit("query");
                reveal_strlit("engine");
                assert("query"@.len() != "engine"@.len());
            }
            match &items[i] {
                BlockItem::Pair { key, value } => {
                    if same_text(key.as_str(), "query") {
                        query = Some(value.clone());
                    } else if same_text(key.as_str(), "engine") {
                        engine = Some(value.clone());
                    } else {
                        return Err(
                            ParseError::UnexpectedKey { block: BlockType::Search, key: key.clone() },
                        );
                    }
                },
                BlockItem::Expected => {
                    return Err(ParseError::ExpectedUnsupported { block: BlockType::Search });
                },
                BlockItem::Unreadable { reason } => {
                    return Err(ParseError::Unreadable { reason: reason.clone() });
                },
            }
            i += 1;
        }
        assert(all.take(i as int) == all);
        match query {
            None => Err(
                ParseError::MissingKey { block: BlockType::Search, key: String::from_str("query") },
            ),
            Some(query) => Ok(
                Search {
                    query,
                    engine: match engine {
                        Some(engine) => engine,
                        None => String::from_str("google"),
                    },
                },
            ),
        }
    }

    /// The query, as the app's text gives it.
    pub fn query(&self) -> (q: &String)
        ensures
            q@ == self@.query,
    {
        &self.query
    }

    /// The engine that is asked.
    pub fn engine(&self) -> (e: &String)
        ensures
            e@ == self@.engine,
    {
        &self.engine
    }

    /// The request for `query` as the cache knows it: the one that is sent, without the key.
    pub fn cached_request(&self, query: &str) -> (r: HttpRequest)
        ensures
            r.deep_view() == cached_request(self@.engine, query@),
    {
        let mut url = String::from_str("https://serpapi.com/search?q=");
        let encoded = url_encode(query);
        url.append(encoded.as_str());
        url.append("&engine=");
        url.append(self.engine.as_str());
        let headers = JsonValue::Object(Vec::new());
        assert(headers@->Object_0 =~= Seq::empty());
        HttpRequest { method: String::from_str("GET"), url, headers, body: JsonValue::Null }
    }

    /// The request that asks the service for `query`, which is the block's query with its
    /// variables filled in.
    pub fn request(&self, query: &str, api_key: &str) -> (r: HttpRequest)
        ensures
            r.deep_view() == search_request(self@.engine, query@, api_key@),
    {
        let mut request = self.cached_request(query);
        request.url.append("&api_key=");
        request.url.append(api_key);
        request
    }

    /// What the block returns for an answer of the service: the body of an answer with status
    /// 200, an error for any other.
    pub fn response(response: HttpResponse) -> (r: Result<JsonValue, BlockError>)
        ensures
            r == searched(response),
    {
        if response.status == 200 {
            Ok(response.body)
        } else {
            Err(BlockError::SearchStatus { status: response.status })
        }
    }
}

/// What the block returns for an answer of the service: the body of an answer with status
/// 200, an error for any other.
pub open spec fn searched(response: HttpResponse) -> Result<JsonValue, BlockError> {
    if response.status == 200 {
        Ok(response.body)
    } else {
        Err(BlockError::SearchStatus { status: response.status })
    }
}

/// The request of a search as the cache knows it.
pub open spec fn cached_request(engine: Seq<char>, query: Seq<char>) -> Request {
    Request {
        method: "GET"@,
        url: search_address(engine, query),
        headers: Json::Object(Seq::empty()),
        body: Json::Null,
    }
}

/// The request that a search sends.
pub open spec fn search_request(engine: Seq<char>, query: Seq<char>, api_key: Seq<char>) -> Request {
    Request {
        method: "GET"@,
        url: search_url(engine, query, api_key),
        headers: Json::Object(Seq::empty()),
        body: Json::Null,
    }
}

/// The key of the search service: the credential `SERP_API_KEY` of the run, or else what the
/// environment holds under that name.
pub open spec fn search_key(env: Env, environment: Option<String>) -> Option<Seq<char>> {
    match secret_of(env.credentials@, "SERP_API_KEY"@) {
        Some(secret) => Some(secret),
        None => match environment {
            Some(value) => Some(value@),
            None => None,
        },
    }
}

/// What the block returns for an answer of the service.
pub open spec fn search_outcome(answer: Response) -> Result<Json, Failure> {
    if answer.status == 200 {
        Ok(answer.body)
    } else {
        Err(Failure::SearchStatus { status: answer.status })
    }
}

impl Search {
    /// Executes the block named `name` for `query`, which is the block's query with its
    /// variables filled in. `environment` is what the environment holds under
    /// `SERP_API_KEY`.
    ///
    /// Without a key nothing is sent and nothing stored. With one, the answer comes from the
    /// cache where the run lets the block use it and the cache has one; otherwise the client
    /// is handed the request with the key, once, and the answer is cached. The cache knows
    /// the request without the key: the key is never stored. The body of an answer with
    /// status 200 is the block's value; any other status is an error. An error of the store
    /// comes back only where the store refused to read or to fill the cache.
    pub fn execute<S: Store, C: HttpClient>(
        &self,
        name: &str,
        env: &Env,
        query: &str,
        environment: Option<String>,
        project: &Project,
        store: &mut S,
        client: &mut C,
    ) -> (r: Result<JsonValue, BlockError>)
        ensures
            search_key(*env, environment) is None ==> (r matches Err(e) && e@
                == (Failure::MissingCredential { name: "SERP_API_KEY"@ })) && *final(client)
                == *old(client) && *final(store) == *old(store),
            search_key(*env, environment) is Some ==> match cached_answer(
                old(store).contents().responses_for(
                    project@,
                    cached_request(self@.engine, query@),
                ),
                cache_enabled(options_of(env.config.blocks@, name@)),
            ) {
                Some(answer) => *final(client) == *old(client) && *final(store) == *old(store)
                    && match r {
                    Ok(value) => search_outcome(answer) == Ok::<_, Failure>(value@),
                    Err(e) => search_outcome(answer) == Err::<Json, _>(e@) || exists|
                        keyed: HttpRequest,
                        error: StoreError,
                    |
                        #[trigger] lookup_refused(*old(store), *project, keyed, error)
                            && keyed.deep_view() == cached_request(self@.engine, query@) && r
                            == Err::<JsonValue, BlockError>(
                            BlockError::Store { message: error.message },
                        ),
                },
                None => {
                    &&& match r {
                        Ok(value) => final(store).contents() == old(
                            store,
                        ).contents().cache_response(
                            project@,
                            cached_request(self@.engine, query@),
                            Response { status: 200, body: value@ },
                        ),
                        Err(BlockError::SearchStatus { status }) => status != 200 && exists|
                            body: Json,
                        |
                            final(store).contents() == old(store).contents().cache_response(
                                project@,
                                cached_request(self@.engine, query@),
                                Response { status, body },
                            ),
                        Err(e) => (e is Store || e is Http) && final(store).contents() == old(
                            store,
                        ).contents(),
                    }
                    &&& {
                        ||| *final(client) == *old(client) && *final(store) == *old(store)
                            && exists|keyed: HttpRequest, error: StoreError|
                            #[trigger] lookup_refused(*old(store), *project, keyed, error)
                                && keyed.deep_view() == cached_request(self@.engine, query@) && r
                                == Err::<JsonValue, BlockError>(
                                BlockError::Store { message: error.message },
                            )
                        ||| exists|
                            asked: &mut C,
                            sent: &HttpRequest,
                            got: Result<HttpResponse, String>,
                        |
                            #[trigger] call_ensures(C::send, (asked, sent), got) && *asked == *old(
                                client,
                            ) && *final(asked) == *final(client) && sent.deep_view()
                                == search_request(
                                self@.engine,
                                query@,
                                search_key(*env, environment)->0,
                            ) && match got {
                                Err(message) => r == Err::<JsonValue, BlockError>(
                                    BlockError::Http { message },
                                ) && *final(store) == *old(store),
                                Ok(response) => exists|
                                    held: &mut S,
                                    keyed: &HttpRequest,
                                    kept: Result<(), StoreError>,
                                |
                                    #[trigger] call_ensures(
                                        S::http_cache_store,
                                        (held, project, keyed, &response),
                                        kept,
                                    ) && *held == *old(store) && *final(held) == *final(store)
                                        && keyed.deep_view() == cached_request(
                                        self@.engine,
                                        query@,
                                    ) && match kept {
                                        Ok(_) => r == searched(response),
                                        Err(error) => r == Err::<JsonValue, BlockError>(
                                            BlockError::Store { message: error.message },
                                        ),
                                    },
                            }
                    }
                },
            },
    {
        let use_cache = env.config.use_cache(name);
        let api_key = match env.credential("SERP_API_KEY", environment) {
            Ok(api_key) => api_key,
            Err(e) => {
                return Err(e);
            },
        };
        let keyed = self.cached_request(query);
        let sent = self.request(query, api_key.as_str());
        match keyed.execute_with_cache_as(&sent, project, store, client, use_cache) {
            Ok(response) => Search::response(response),
            Err(HttpError::Store { error }) => Err(BlockError::Store { message: error.message }),
            Err(HttpError::Client { message }) => Err(BlockError::Http { message }),
        }
    }
}

/// Two `search` blocks with the same parameters have the same hash.
pub proof fn search_hash_by_parameters(a: Search, b: Search)
    requires
        a@ == b@,
    ensures
        a.hashed() == b.hashed(),
        crate::hashing::content_hash(a.hashed()) == crate::hashing::content_hash(b.hashed()),
{
}

impl Clone for Search {
    fn clone(&self) -> (r: Search)
        ensures
            r@ == self@,
    {
        Search { query: self.query.clone(), engine: self.engine.clone() }
    }
}

impl Block for Search {
    open spec fn kind(&self) -> BlockType {
        BlockType::Search
    }

    /// A `search` block always runs.
    open spec fn condition(&self) -> Option<Seq<char>> {
        None
    }

    /// What is hashed for a `search` block: its keyword, the query, the engine.
    open spec fn hashed(&self) -> Seq<u8> {
        encode_utf8(BlockType::Search.keyword()) + encode_utf8(self@.query) + encode_utf8(
            self@.engine,
        )
    }

    fn block_type(&self) -> (t: BlockType) {
        BlockType::Search
    }

    fn run_if(&self) -> (r: Option<String>) {
        None
    }

    fn inner_hash(&self) -> (h: String) {
        let mut buffer: Vec<u8> = Vec::new();
        absorb(&mut buffer, BlockType::Search.as_str());
        absorb(&mut buffer, self.query.as_str());
        absorb(&mut buffer, self.engine.as_str());
        assert(buffer@ == self.hashed());
        hash_bytes(buffer.as_slice())
    }
}

} // verus!
