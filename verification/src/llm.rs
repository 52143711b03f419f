//! Requests to a language model, and the generations that answer them.

use crate::project::Project;
use crate::store::{cached_last_is_found, Contents, Store, StoreError};
use crate::text::{copy_strings, same_strings, same_text};
use vstd::prelude::*;

verus! {

/// A request to a language model. The temperature is held as the text of its number.
pub struct LLMRequest {
    pub provider_id: String,
    pub model_id: String,
    pub prompt: String,
    pub max_tokens: Option<u32>,
    pub temperature: String,
    pub stop: Vec<String>,
}

/// The mathematical form of an [`LLMRequest`].
pub struct Prompting {
    pub provider_id: Seq<char>,
    pub model_id: Seq<char>,
    pub prompt: Seq<char>,
    pub max_tokens: Option<u32>,
    pub temperature: Seq<char>,
    pub stop: Seq<Seq<char>>,
}

impl DeepView for LLMRequest {
    type V = Prompting;

    open spec fn deep_view(&self) -> Prompting {
        Prompting {
            provider_id: self.provider_id@,
            model_id: self.model_id@,
            prompt: self.prompt@,
            max_tokens: self.max_tokens,
            temperature: self.temperature@,
            stop: self.stop.deep_view(),
        }
    }
}

/// What a language model gave for a request: the prompt it was given, and its completions.
pub struct LLMGeneration {
    pub created: u64,
    pub prompt: String,
    pub completions: Vec<String>,
}

/// The mathematical form of an [`LLMGeneration`].
pub struct Generation {
    pub created: nat,
    pub prompt: Seq<char>,
    pub completions: Seq<Seq<char>>,
}

impl DeepView for LLMGeneration {
    type V = Generation;

    open spec fn deep_view(&self) -> Generation {
        Generation {
            created: self.created as nat,
            prompt: self.prompt@,
            completions: self.completions.deep_view(),
        }
    }
}

impl Clone for LLMRequest {
    fn clone(&self) -> (r: LLMRequest)
        ensures
            r.deep_view() == self.deep_view(),
    {
        LLMRequest {
            provider_id: self.provider_id.clone(),
            model_id: self.model_id.clone(),
            prompt: self.prompt.clone(),
            max_tokens: self.max_tokens,
            temperature: self.temperature.clone(),
            stop: copy_strings(&self.stop),
        }
    }
}

impl LLMRequest {
    /// Whether two requests are the same in every parameter.
    pub fn same(&self, other: &LLMRequest) -> (r: bool)
        ensures
            r == (self.deep_view() == other.deep_view()),
    {
        let same_limit = match self.max_tokens {
            Some(a) => match other.max_tokens {
                Some(b) => a == b,
                None => false,
            },
            None => other.max_tokens.is_none(),
        };
        same_limit && same_text(self.provider_id.as_str(), other.provider_id.as_str())
            && same_text(self.model_id.as_str(), other.model_id.as_str()) && same_text(
            self.prompt.as_str(),
            other.prompt.as_str(),
        ) && same_text(self.temperature.as_str(), other.temperature.as_str()) && same_strings(
            &self.stop,
            &other.stop,
        )
    }
}

/// A language model, as a provider offers it. Nothing is known of what it generates.
pub trait LLM {
    /// Generates for a request. An error carries the provider's message.
    fn generate(&mut self, request: &LLMRequest) -> Result<LLMGeneration, String>;
}

/// Why a request got no generation.
#[derive(Debug, PartialEq, Eq)]
pub enum LLMError {
    /// The store failed.
    Store { error: StoreError },
    /// The provider failed; the message is its own.
    Provider { message: String },
}

/// The generation that the cache has for a request, if it is to be used and has one: the
/// one that was cached last.
pub open spec fn cached_generation(cached: Seq<Generation>, use_cache: bool) -> Option<Generation> {
    if use_cache && cached.len() > 0 {
        Some(cached.last())
    } else {
        None
    }
}

/// Whether the store refused, with `error`, to say what it has cached for a request.
pub open spec fn lookup_refused<S: Store>(
    store: S,
    project: Project,
    request: LLMRequest,
    error: StoreError,
) -> bool {
    call_ensures(
        S::llm_cache_get,
        (&store, &project, &request),
        Err::<Vec<LLMGeneration>, StoreError>(error),
    )
}

impl LLMRequest {
    /// Gets a generation for this request. Where the cache is to be used and holds one, the
    /// one that was cached last comes back, the provider is not called and the store stays
    /// as it is. Otherwise the provider is handed this request, once, and what it generates
    /// is cached and comes back; where it fails, its message comes back and nothing is
    /// cached. An error of the store comes back only where the store refused to read or to
    /// fill the cache, and then nothing is cached.
    pub fn execute_with_cache<S: Store, P: LLM>(
        &self,
        project: &Project,
        store: &mut S,
        provider: &mut P,
        use_cache: bool,
    ) -> (r: Result<LLMGeneration, LLMError>)
        ensures
            cached_generation(
                old(store).contents().generations_for(project@, self.deep_view()),
                use_cache,
            ) matches Some(generation) ==> *final(provider) == *old(provider) && *final(store)
                == *old(store) && match r {
                Ok(found) => found.deep_view() == generation,
                Err(LLMError::Store { error }) => lookup_refused(
                    *old(store),
                    *project,
                    *self,
                    error,
                ),
                Err(LLMError::Provider { .. }) => false,
            },
            cached_generation(
                old(store).contents().generations_for(project@, self.deep_view()),
                use_cache,
            ) is None ==> {
                ||| use_cache && *final(provider) == *old(provider) && *final(store) == *old(store)
                    && r is Err && r->Err_0 is Store && lookup_refused(
                    *old(store),
                    *project,
                    *self,
                    r->Err_0->Store_error,
                )
                ||| exists|asked: &mut P, got: Result<LLMGeneration, String>|
                    #[trigger] call_ensures(P::generate, (asked, self), got) && *asked == *old(
                        provider,
                    ) && *final(asked) == *final(provider) && match got {
                        Err(message) => r == Err::<LLMGeneration, LLMError>(
                            LLMError::Provider { message },
                        ) && *final(store) == *old(store),
                        Ok(generation) => exists|held: &mut S, kept: Result<(), StoreError>|
                            #[trigger] call_ensures(
                                S::llm_cache_store,
                                (held, project, self, &generation),
                                kept,
                            ) && *held == *old(store) && *final(held) == *final(store)
                                && match kept {
                                Ok(_) => r == Ok::<LLMGeneration, LLMError>(generation),
                                Err(error) => r == Err::<LLMGeneration, LLMError>(
                                    LLMError::Store { error },
                                ),
                            },
                    }
            },
            cached_generation(
                old(store).contents().generations_for(project@, self.deep_view()),
                use_cache,
            ) is None ==> match r {
                Ok(generation) => final(store).contents() == old(store).contents().cache_generation(
                    project@,
                    self.deep_view(),
                    generation.deep_view(),
                ),
                Err(_) => final(store).contents() == old(store).contents(),
            },
    {
        if use_cache {
            let mut cached = match store.llm_cache_get(project, self) {
                Ok(cached) => cached,
                Err(error) => {
                    return Err(LLMError::Store { error });
                },
            };
            let ghost all = cached.deep_view();
            match cached.pop() {
                Some(generation) => {
                    assert(generation.deep_view() == all.last());
                    return Ok(generation);
                },
                None => {},
            }
        }
        let generation = match provider.generate(self) {
            Ok(generation) => generation,
            Err(message) => {
                return Err(LLMError::Provider { message });
            },
        };
        match store.llm_cache_store(project, self, &generation) {
            Ok(_) => Ok(generation),
            Err(error) => Err(LLMError::Store { error }),
        }
    }
}

/// Once a request has got a generation, the cache answers it: the next time, with the cache
/// in use, that generation comes back and the provider is not called. `before` and `after`
/// are what the store contains before and after the first time, as the contract of
/// [`LLMRequest::execute_with_cache`] relates them.
pub proof fn answered_request_is_cached(
    before: Contents,
    after: Contents,
    project: int,
    request: Prompting,
    generation: Generation,
    use_cache: bool,
)
    requires
        match cached_generation(before.generations_for(project, request), use_cache) {
            Some(found) => after == before && generation == found,
            None => after == before.cache_generation(project, request, generation),
        },
    ensures
        cached_generation(after.generations_for(project, request), true) == Some(generation),
{
    cached_last_is_found(
        before,
        project,
        request,
        generation,
        arbitrary(),
        arbitrary(),
    );
}

impl Clone for LLMGeneration {
    fn clone(&self) -> (r: LLMGeneration)
        ensures
            r.deep_view() == self.deep_view(),
    {
        LLMGeneration {
            created: self.created,
            prompt: self.prompt.clone(),
            completions: copy_strings(&self.completions),
        }
    }
}

} // verus!
