//! Requests to services outside, and what comes back.

use crate::json::{Json, JsonValue};
use crate::project::Project;
use crate::store::{cached_last_is_found, Contents, Store, StoreError};
use crate::text::same_text;
use vstd::prelude::*;
use vstd::utf8::encode_utf8;

verus! {

/// A request: method, address, headers and body.
#[derive(Debug, PartialEq, Eq)]
pub struct HttpRequest {
    pub method: String,
    pub url: String,
    pub headers: JsonValue,
    pub body: JsonValue,
}

/// The mathematical form of an [`HttpRequest`].
pub struct Request {
    pub method: Seq<char>,
    pub url: Seq<char>,
    pub headers: Json,
    pub body: Json,
}

impl DeepView for HttpRequest {
    type V = Request;

    open spec fn deep_view(&self) -> Request {
        Request { method: self.method@, url: self.url@, headers: self.headers@, body: self.body@ }
    }
}

/// An answer: the status and the body that came with it.
#[derive(Debug, PartialEq, Eq)]
pub struct HttpResponse {
    pub status: u16,
    pub body: JsonValue,
}

/// The mathematical form of an [`HttpResponse`].
pub struct Response {
    pub status: u16,
    pub body: Json,
}

impl DeepView for HttpResponse {
    type V = Response;

    open spec fn deep_view(&self) -> Response {
        Response { status: self.status, body: self.body@ }
    }
}

impl Clone for HttpRequest {
    fn clone(&self) -> (r: HttpRequest)
        ensures
            r.deep_view() == self.deep_view(),
    {
        HttpRequest {
            method: self.method.clone(),
            url: self.url.clone(),
            headers: self.headers.clone(),
            body: self.body.clone(),
        }
    }
}

impl Clone for HttpResponse {
    fn clone(&self) -> (r: HttpResponse)
        ensures
            r.deep_view() == self.deep_view(),
    {
        HttpResponse { status: self.status, body: self.body.clone() }
    }
}

impl HttpRequest {
    /// Whether two requests are the same in method, address, headers and body.
    pub fn same(&self, other: &HttpRequest) -> (r: bool)
        ensures
            r == (self.deep_view() == other.deep_view()),
    {
        same_text(self.method.as_str(), other.method.as_str()) && same_text(
            self.url.as_str(),
            other.url.as_str(),
        ) && self.headers.same(&other.headers) && self.body.same(&other.body)
    }
}

/// What sends a request and brings back the answer. Nothing is known of what it brings.
pub trait HttpClient {
    /// Sends the request. An error carries the client's message.
    fn send(&mut self, request: &HttpRequest) -> Result<HttpResponse, String>;
}

/// Why a request got no answer.
#[derive(Debug, PartialEq, Eq)]
pub enum HttpError {
    /// The store failed.
    Store { error: StoreError },
    /// The request could not be sent, or no answer came; the message is the client's.
    Client { message: String },
}

/// The answer that the cache has for a request, if it is to be used and has one: the one
/// that was cached last.
pub open spec fn cached_answer(cached: Seq<Response>, use_cache: bool) -> Option<Response> {
    if use_cache && cached.len() > 0 {
        Some(cached.last())
    } else {
        None
    }
}

/// Whether the store refused, with `error`, to say what it has cached for a request.
pub open spec fn lookup_refused<S: Store>(
    store: S,
    project: Project,
    request: HttpRequest,
    error: StoreError,
) -> bool {
    call_ensures(
        S::http_cache_get,
        (&store, &project, &request),
        Err::<Vec<HttpResponse>, StoreError>(error),
    )
}

impl HttpRequest {
    /// Gets the answer to this request. Where the cache is to be used and holds an answer,
    /// the one that was cached last comes back, nothing is sent and the store stays as it is.
    /// Otherwise the client is handed this request, once, and the answer, whatever its
    /// status, is cached and comes back; where the client fails, its message comes back and
    /// nothing is cached. An error of the store comes back only where the store refused to
    /// read or to fill the cache, and then nothing is cached.
    pub fn execute_with_cache<S: Store, C: HttpClient>(
        &self,
        project: &Project,
        store: &mut S,
        client: &mut C,
        use_cache: bool,
    ) -> (r: Result<HttpResponse, HttpError>)
        ensures
            cached_answer(
                old(store).contents().responses_for(project@, self.deep_view()),
                use_cache,
            ) matches Some(answer) ==> *final(client) == *old(client) && *final(store) == *old(
                store,
            ) && match r {
                Ok(response) => response.deep_view() == answer,
                Err(HttpError::Store { error }) => lookup_refused(
                    *old(store),
                    *project,
                    *self,
                    error,
                ),
                Err(HttpError::Client { .. }) => false,
            },
            cached_answer(
                old(store).contents().responses_for(project@, self.deep_view()),
                use_cache,
            ) is None ==> {
                ||| use_cache && *final(client) == *old(client) && *final(store) == *old(store)
                    && r is Err && r->Err_0 is Store && lookup_refused(
                    *old(store),
                    *project,
                    *self,
                    r->Err_0->Store_error,
                )
                ||| exists|asked: &mut C, got: Result<HttpResponse, String>|
                    #[trigger] call_ensures(C::send, (asked, self), got) && *asked == *old(client)
                        && *final(asked) == *final(client) && match got {
                        Err(message) => r == Err::<HttpResponse, HttpError>(
                            HttpError::Client { message },
                        ) && *final(store) == *old(store),
                        Ok(response) => exists|held: &mut S, kept: Result<(), StoreError>|
                            #[trigger] call_ensures(
                                S::http_cache_store,
                                (held, project, self, &response),
                                kept,
                            ) && *held == *old(store) && *final(held) == *final(store)
                                && match kept {
                                Ok(_) => r == Ok::<HttpResponse, HttpError>(response),
                                Err(error) => r == Err::<HttpResponse, HttpError>(
                                    HttpError::Store { error },
                                ),
                            },
                    }
            },
            cached_answer(
                old(store).contents().responses_for(project@, self.deep_view()),
                use_cache,
            ) is None ==> match r {
                Ok(response) => final(store).contents() == old(store).contents().cache_response(
                    project@,
                    self.deep_view(),
                    response.deep_view(),
                ),
                Err(_) => final(store).contents() == old(store).contents(),
            },
    {
        self.execute_with_cache_as(self, project, store, client, use_cache)
    }

    /// Gets the answer to this request, which is sent as `sent`: the request with what the
    /// service asks for and the cache is not to hold. The cache is read and filled under this
    /// request, as in [`HttpRequest::execute_with_cache`]; the client is handed `sent`.
    pub fn execute_with_cache_as<S: Store, C: HttpClient>(
        &self,
        sent: &HttpRequest,
        project: &Project,
        store: &mut S,
        client: &mut C,
        use_cache: bool,
    ) -> (r: Result<HttpResponse, HttpError>)
        ensures
            cached_answer(
                old(store).contents().responses_for(project@, self.deep_view()),
                use_cache,
            ) matches Some(answer) ==> *final(client) == *old(client) && *final(store) == *old(
                store,
            ) && match r {
                Ok(response) => response.deep_view() == answer,
                Err(HttpError::Store { error }) => lookup_refused(
                    *old(store),
                    *project,
                    *self,
                    error,
                ),
                Err(HttpError::Client { .. }) => false,
            },
            cached_answer(
                old(store).contents().responses_for(project@, self.deep_view()),
                use_cache,
            ) is None ==> {
                ||| use_cache && *final(client) == *old(client) && *final(store) == *old(store)
                    && r is Err && r->Err_0 is Store && lookup_refused(
                    *old(store),
                    *project,
                    *self,
                    r->Err_0->Store_error,
                )
                ||| exists|asked: &mut C, got: Result<HttpResponse, String>|
                    #[trigger] call_ensures(C::send, (asked, sent), got) && *asked == *old(client)
                        && *final(asked) == *final(client) && match got {
                        Err(message) => r == Err::<HttpResponse, HttpError>(
                            HttpError::Client { message },
                        ) && *final(store) == *old(store),
                        Ok(response) => exists|held: &mut S, kept: Result<(), StoreError>|
                            #[trigger] call_ensures(
                                S::http_cache_store,
                                (held, project, self, &response),
                                kept,
                            ) && *held == *old(store) && *final(held) == *final(store)
                                && match kept {
                                Ok(_) => r == Ok::<HttpResponse, HttpError>(response),
                                Err(error) => r == Err::<HttpResponse, HttpError>(
                                    HttpError::Store { error },
                                ),
                            },
                    }
            },
            cached_answer(
                old(store).contents().responses_for(project@, self.deep_view()),
                use_cache,
            ) is None ==> match r {
                Ok(response) => final(store).contents() == old(store).contents().cache_response(
                    project@,
                    self.deep_view(),
                    response.deep_view(),
                ),
                Err(_) => final(store).contents() == old(store).contents(),
            },
    {
        if use_cache {
            let mut cached = match store.http_cache_get(project, self) {
                Ok(cached) => cached,
                Err(error) => {
                    return Err(HttpError::Store { error });
                },
            };
            let ghost all = cached.deep_view();
            match cached.pop() {
                Some(response) => {
                    assert(response.deep_view() == all.last());
                    return Ok(response);
                },
                None => {},
            }
        }
        let response = match client.send(sent) {
            Ok(response) => response,
            Err(message) => {
                return Err(HttpError::Client { message });
            },
        };
        match store.http_cache_store(project, self, &response) {
            Ok(_) => Ok(response),
            Err(error) => Err(HttpError::Store { error }),
        }
    }
}

/// Once a request has got an answer, the cache answers it: the next time, with the cache in
/// use, that answer comes back and nothing is sent. `before` and `after` are what the store
/// contains before and after the first time, as the contract of
/// [`HttpRequest::execute_with_cache`] relates them.
pub proof fn answered_request_is_cached(
    before: Contents,
    after: Contents,
    project: int,
    request: Request,
    response: Response,
    use_cache: bool,
)
    requires
        match cached_answer(before.responses_for(project, request), use_cache) {
            Some(found) => after == before && response == found,
            None => after == before.cache_response(project, request, response),
        },
    ensures
        cached_answer(after.responses_for(project, request), true) == Some(response),
{
    cached_last_is_found(before, project, arbitrary(), arbitrary(), request, response);
}

/// True of the bytes that stand for themselves in an address: ASCII letters and digits, and
/// `-`, `.`, `_`, `~`.
pub open spec fn is_unreserved(byte: u8) -> bool {
    (0x30 <= byte && byte <= 0x39) || (0x41 <= byte && byte <= 0x5a) || (0x61 <= byte && byte
        <= 0x7a) || byte == 0x2d || byte == 0x2e || byte == 0x5f || byte == 0x7e
}

/// The uppercase hexadecimal digit of a value below sixteen.
pub open spec fn upper_hex_digit(nibble: u8) -> char {
    if nibble < 10 {
        (48 + nibble) as char
    } else {
        (55 + nibble) as char
    }
}

/// One byte in percent-encoding: itself where it is unreserved, else `%` and its two
/// hexadecimal digits.
pub open spec fn percent_encoded_byte(byte: u8) -> Seq<char> {
    if is_unreserved(byte) {
        seq![byte as char]
    } else {
        seq!['%', upper_hex_digit(byte / 16), upper_hex_digit(byte % 16)]
    }
}

/// Bytes in percent-encoding, one after the other.
pub open spec fn percent_encoded(bytes: Seq<u8>) -> Seq<char>
    decreases bytes.len(),
{
    if bytes.len() == 0 {
        Seq::empty()
    } else {
        percent_encoded(bytes.drop_last()) + percent_encoded_byte(bytes.last())
    }
}

/// Calls `urlencoding::encode`, which percent-encodes every byte of the text's UTF-8 form
/// except ASCII letters and digits and `-`, `_`, `.`, `~`, with uppercase hexadecimal digits.
#[verifier::external_body]
pub(crate) fn url_encode(text: &str) -> (r: String)
    ensures
        r@ == percent_encoded(encode_utf8(text@)),
{
    urlencoding::encode(text).into_owned()
}

} // verus!
