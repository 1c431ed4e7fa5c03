//! A cache of backend answers, keyed by the query text.
//!
//! Entries are only ever added. An entry is found by the fingerprint of its
//! query text together with the text itself, and of several that match the
//! one added last counts.

use crate::text::same_text;
use vstd::prelude::*;

verus! {

/// The SHA-256 digest of the UTF-8 bytes of `text`, as 64 lower-case
/// hexadecimal digits.
pub uninterp spec fn sha256_hex(text: Seq<char>) -> Seq<char>;

/// Computes the fingerprint of `text` with `sha256::digest`, which hashes
/// the bytes of a string and writes the digest in hexadecimal. The result
/// depends on the text alone.
#[verifier::external_body]
fn digest_hex(text: &str) -> (hash: String)
    ensures
        hash@ == sha256_hex(text@),
{
    sha256::digest(text)
}

/// The fingerprint under which the answer to `query_text` is cached.
pub fn query_fingerprint(query_text: &str) -> (hash: String)
    ensures
        hash@ == sha256_hex(query_text@),
{
    digest_hex(query_text)
}

/// One cached answer.
#[derive(Debug, Clone, PartialEq, Eq)]
pub struct CacheEntry {
    pub query_hash: String,
    pub query_string: String,
    pub result_payload: String,
    pub duration_ms: u32,
}

/// A cached answer as plain values.
pub ghost struct EntryModel {
    pub query_hash: Seq<char>,
    pub query_string: Seq<char>,
    pub result_payload: Seq<char>,
    pub duration_ms: nat,
}

impl View for CacheEntry {
    type V = EntryModel;

    open spec fn view(&self) -> EntryModel {
        EntryModel {
            query_hash: self.query_hash@,
            query_string: self.query_string@,
            result_payload: self.result_payload@,
            duration_ms: self.duration_ms as nat,
        }
    }
}

/// The answer of the newest entry of `entries` that was stored for the
/// fingerprint `hash` and the text `text`, from oldest to newest.
pub open spec fn newest_match(entries: Seq<EntryModel>, hash: Seq<char>, text: Seq<char>) -> Option<
    Seq<char>,
>
    decreases entries.len(),
{
    if entries.len() == 0 {
        None
    } else if entries.last().query_hash == hash && entries.last().query_string == text {
        Some(entries.last().result_payload)
    } else {
        newest_match(entries.drop_last(), hash, text)
    }
}

/// The entry under which the answer `payload` to `query_text` is stored.
pub open spec fn entry_for(query_text: Seq<char>, payload: Seq<char>, duration_ms: nat) -> EntryModel {
    EntryModel {
        query_hash: sha256_hex(query_text),
        query_string: query_text,
        result_payload: payload,
        duration_ms,
    }
}

/// The cached answers, oldest first.
#[derive(Debug, Clone, PartialEq, Eq)]
pub struct ResultCache {
    entries: Vec<CacheEntry>,
}

impl ResultCache {
    /// The entries of the cache, oldest first.
    pub closed spec fn model(&self) -> Seq<EntryModel> {
        self.entries@.map_values(|e: CacheEntry| e@)
    }

    /// A cache without entries.
    pub fn new() -> (cache: ResultCache)
        ensures
            cache.model() == Seq::<EntryModel>::empty(),
    {
        let cache = ResultCache { entries: Vec::new() };
        assert(cache.model() =~= Seq::<EntryModel>::empty());
        cache
    }

    /// The number of entries.
    pub fn len(&self) -> (n: usize)
        ensures
            n == self.model().len(),
    {
        self.entries.len()
    }

    /// The newest answer stored under `hash` for exactly the text `text`.
    pub fn lookup(&self, hash: &str, text: &str) -> (found: Option<String>)
        ensures
            match found {
                Some(payload) => newest_match(self.model(), hash@, text@) == Some(payload@),
                None => newest_match(self.model(), hash@, text@) is None,
            },
    {
        let mut k: usize = self.entries.len();
        proof {
            assert(self.model().take(k as int) =~= self.model());
        }
        while k > 0
            invariant
                k <= self.entries.len(),
                newest_match(self.model(), hash@, text@) == newest_match(
                    self.model().take(k as int),
                    hash@,
                    text@,
                ),
            decreases k,
        {
            let entry = &self.entries[k - 1];
            proof {
                assert(self.model().take(k as int).last() == entry@);
                assert(self.model().take(k as int).drop_last() =~= self.model().take(k - 1));
            }
            if same_text(entry.query_hash.as_str(), hash) && same_text(
                entry.query_string.as_str(),
                text,
            ) {
                return Some(entry.result_payload.clone());
            }
            k -= 1;
        }
        None
    }

    /// Adds an entry. Nothing that is in the cache changes.
    pub fn record(&mut self, entry: CacheEntry)
        ensures
            final(self).model() == old(self).model().push(entry@),
    {
        self.entries.push(entry);
        assert(self.model() =~= old(self).model().push(entry@));
    }
}

/// What the backend said to one query.
#[derive(Debug, Clone, PartialEq, Eq)]
pub enum BackendReply {
    /// An answer with its status code and its text.
    Answer { status: u16, body: String },
    /// No answer: the backend could not be reached or the call broke off.
    Unreachable,
}

/// Why a query got no answer. The caller may try again.
#[derive(Debug, Clone, PartialEq, Eq)]
pub enum BackendError {
    /// The backend could not be reached.
    Transport,
    /// The backend refused the query.
    Status { status: u16, body: String },
}

/// What to do for a query once the cache was asked.
#[derive(Debug, Clone, PartialEq, Eq)]
pub enum CachePlan {
    /// The cache holds the answer: hand it out without asking the backend.
    Serve(String),
    /// The cache holds none: ask the backend.
    Fetch,
}

/// Whether `status` tells of a failure: a client error or a server error.
pub open spec fn is_failure_status(status: u16) -> bool {
    400 <= status < 600
}

/// The time `millis` as it is stored with an entry: its low 32 bits.
pub open spec fn stored_duration(millis: u128) -> nat {
    (millis % 0x1_0000_0000) as nat
}

/// The time `millis` as it is stored with an entry.
pub fn duration_ms(millis: u128) -> (ms: u32)
    ensures
        ms == stored_duration(millis),
{
    (millis % 0x1_0000_0000) as u32
}

/// Asks the cache for the answer to `query_text`.
pub fn plan_query(cache: &ResultCache, query_text: &str) -> (plan: CachePlan)
    ensures
        match plan {
            CachePlan::Serve(payload) => newest_match(
                cache.model(),
                sha256_hex(query_text@),
                query_text@,
            ) == Some(payload@),
            CachePlan::Fetch => newest_match(cache.model(), sha256_hex(query_text@), query_text@)
                is None,
        },
{
    let hash = query_fingerprint(query_text);
    match cache.lookup(hash.as_str(), query_text) {
        Some(payload) => CachePlan::Serve(payload),
        None => CachePlan::Fetch,
    }
}

/// What becomes of a cached answer once the caller has tried to read it:
/// one that cannot be read counts as no answer.
pub fn plan_after_decode(plan: CachePlan, readable: bool) -> (next: CachePlan)
    ensures
        next == if readable {
            plan
        } else {
            CachePlan::Fetch
        },
{
    if readable {
        plan
    } else {
        CachePlan::Fetch
    }
}

/// What a reply is worth by itself: the text of an answer whose status is
/// no failure, and an error for a failure status or an unreachable
/// backend.
pub open spec fn accepted(reply: BackendReply) -> Result<String, BackendError> {
    match reply {
        BackendReply::Unreachable => Err(BackendError::Transport),
        BackendReply::Answer { status, body } => if is_failure_status(status) {
            Err(BackendError::Status { status, body })
        } else {
            Ok(body)
        },
    }
}

/// Tells an answer from a failure.
pub fn accept_reply(reply: BackendReply) -> (outcome: Result<String, BackendError>)
    ensures
        outcome == accepted(reply),
{
    match reply {
        BackendReply::Unreachable => Err(BackendError::Transport),
        BackendReply::Answer { status, body } => {
            if 400 <= status && status < 600 {
                Err(BackendError::Status { status, body })
            } else {
                Ok(body)
            }
        },
    }
}

/// The entry to store for what the backend said to `query_text` after
/// `elapsed_millis`: every accepted answer gets one, empty or not, under
/// the fingerprint of the query text; a failure gets none.
pub fn entry_for_reply(query_text: &str, reply: BackendReply, elapsed_millis: u128) -> (outcome:
    Result<CacheEntry, BackendError>)
    ensures
        match outcome {
            Ok(entry) => {
                &&& accepted(reply) == Ok::<String, BackendError>(entry.result_payload)
                &&& entry@ == entry_for(
                    query_text@,
                    entry.result_payload@,
                    stored_duration(elapsed_millis),
                )
            },
            Err(e) => accepted(reply) == Err::<String, BackendError>(e),
        },
{
    match accept_reply(reply) {
        Err(e) => Err(e),
        Ok(body) => Ok(
            CacheEntry {
                query_hash: query_fingerprint(query_text),
                query_string: String::from_str(query_text),
                result_payload: body,
                duration_ms: duration_ms(elapsed_millis),
            },
        ),
    }
}

/// Takes in what the backend said to `query_text` after `elapsed_millis`.
///
/// An answer whose status is no failure is stored, empty or not, and handed
/// out. A failure status and an unreachable backend are errors, and the
/// cache stays as it is.
pub fn settle_reply(
    cache: &mut ResultCache,
    query_text: &str,
    reply: BackendReply,
    elapsed_millis: u128,
) -> (outcome: Result<String, BackendError>)
    ensures
        settled(old(cache).model(), query_text@, reply, elapsed_millis) == (
            final(cache).model(),
            outcome,
        ),
{
    match entry_for_reply(query_text, reply, elapsed_millis) {
        Err(e) => Err(e),
        Ok(entry) => {
            let body = entry.result_payload.clone();
            cache.record(entry);
            Ok(body)
        },
    }
}

/// The answer to `query_text`: the cached one where the cache holds one,
/// else what `backend` says, which is then stored.
///
/// `backend` is called with the query text and returns the reply and the
/// milliseconds that it took. It is not called where the cache holds the
/// answer: there it need not even accept the query.
pub fn execute_cached<F: FnOnce(&str) -> (BackendReply, u128)>(
    cache: &mut ResultCache,
    query_text: &str,
    backend: F,
) -> (outcome: Result<String, BackendError>)
    requires
        newest_match(old(cache).model(), sha256_hex(query_text@), query_text@) is None
            ==> call_requires(backend, (query_text,)),
    ensures
        match newest_match(old(cache).model(), sha256_hex(query_text@), query_text@) {
            Some(payload) => {
                &&& outcome is Ok
                &&& outcome->Ok_0@ == payload
                &&& final(cache).model() == old(cache).model()
            },
            None => exists|reply: BackendReply, millis: u128|
                {
                    &&& call_ensures(backend, (query_text,), (reply, millis))
                    &&& settled(old(cache).model(), query_text@, reply, millis) == (
                        final(cache).model(),
                        outcome,
                    )
                },
        },
{
    match plan_query(cache, query_text) {
        CachePlan::Serve(payload) => Ok(payload),
        CachePlan::Fetch => {
            let (reply, millis) = backend(query_text);
            settle_reply(cache, query_text, reply, millis)
        },
    }
}

/// The answer to `query_text` for a caller that does not know what the
/// cache holds: `backend` accepts the query in any case, and is asked only
/// where the cache holds no answer.
pub fn fetch_cached<F: FnOnce(&str) -> (BackendReply, u128)>(
    cache: &mut ResultCache,
    query_text: &str,
    backend: F,
) -> (outcome: Result<String, BackendError>)
    requires
        call_requires(backend, (query_text,)),
    ensures
        match newest_match(old(cache).model(), sha256_hex(query_text@), query_text@) {
            Some(payload) => {
                &&& outcome is Ok
                &&& outcome->Ok_0@ == payload
                &&& final(cache).model() == old(cache).model()
            },
            None => exists|reply: BackendReply, millis: u128|
                {
                    &&& call_ensures(backend, (query_text,), (reply, millis))
                    &&& settled(old(cache).model(), query_text@, reply, millis) == (
                        final(cache).model(),
                        outcome,
                    )
                },
        },
{
    execute_cached(cache, query_text, backend)
}

/// The cache and the outcome after the backend said `reply` to
/// `query_text`: an accepted answer is added to the cache, anything else
/// leaves the cache as it is.
pub open spec fn settled(
    entries: Seq<EntryModel>,
    query_text: Seq<char>,
    reply: BackendReply,
    millis: u128,
) -> (Seq<EntryModel>, Result<String, BackendError>) {
    match accepted(reply) {
        Ok(body) => (
            entries.push(entry_for(query_text, body@, stored_duration(millis))),
            Ok(body),
        ),
        Err(e) => (entries, Err(e)),
    }
}

/// An answer that was stored is found again: once the backend has answered
/// a query and the answer is in the cache, the cache holds an answer to that
/// query, and it is this one.
pub proof fn lemma_stored_answer_is_served(
    entries: Seq<EntryModel>,
    query_text: Seq<char>,
    payload: Seq<char>,
    duration_ms: nat,
)
    ensures
        newest_match(
            entries.push(entry_for(query_text, payload, duration_ms)),
            sha256_hex(query_text),
            query_text,
        ) == Some(payload),
{
}

/// Asking twice gives one answer: once the backend has answered a query
/// without a failure status, the cache holds that answer for the query, so
/// that the next call finds it there and has no need of the backend.
pub proof fn lemma_cache_idempotent(
    entries: Seq<EntryModel>,
    query_text: Seq<char>,
    status: u16,
    body: String,
    millis: u128,
)
    requires
        !is_failure_status(status),
    ensures
        ({
            let after = settled(entries, query_text, BackendReply::Answer { status, body }, millis);
            &&& after.1 == Ok::<String, BackendError>(body)
            &&& newest_match(after.0, sha256_hex(query_text), query_text) == Some(body@)
        }),
{
}

/// Entries stored for other query texts do not change what a query finds,
/// even where the fingerprints are the same.
pub proof fn lemma_other_text_is_ignored(
    entries: Seq<EntryModel>,
    entry: EntryModel,
    hash: Seq<char>,
    query_text: Seq<char>,
)
    requires
        entry.query_string != query_text,
    ensures
        newest_match(entries.push(entry), hash, query_text) == newest_match(
            entries,
            hash,
            query_text,
        ),
{
    assert(entries.push(entry).drop_last() =~= entries);
}

} // verus!
