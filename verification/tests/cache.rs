use hoover_search::cache::{
    duration_ms, entry_for_reply, execute_cached, fetch_cached, plan_after_decode, plan_query, query_fingerprint, settle_reply,
    BackendError, BackendReply, CacheEntry, CachePlan, ResultCache,
};
use std::cell::Cell;

fn answer(body: &str) -> BackendReply {
    BackendReply::Answer { status: 200, body: body.to_string() }
}

#[test]
fn fingerprint_is_the_sha256_of_the_text_in_hex() {
    assert_eq!(
        query_fingerprint("hello"),
        "2cf24dba5fb0a30e26e83b2ac5b9e29e1b161e5c1fa7425e73043362938b9824"
    );
    assert_eq!(
        query_fingerprint(""),
        "e3b0c44298fc1c149afbf4c8996fb92427ae41e4649b934ca495991b7852b855"
    );
}

#[test]
fn second_call_is_served_from_the_cache() {
    let calls = Cell::new(0u32);
    let mut cache = ResultCache::new();
    let first = execute_cached(&mut cache, "SELECT 1", |_sql: &str| {
        calls.set(calls.get() + 1);
        (answer("{\"hits\":[]}"), 12)
    });
    let second = execute_cached(&mut cache, "SELECT 1", |_sql: &str| {
        calls.set(calls.get() + 1);
        (answer("something else"), 1)
    });
    assert_eq!(first, Ok("{\"hits\":[]}".to_string()));
    assert_eq!(second, first);
    assert_eq!(calls.get(), 1);
    assert_eq!(cache.len(), 1);
}

#[test]
fn other_query_text_misses_the_cache() {
    let calls = Cell::new(0u32);
    let mut cache = ResultCache::new();
    let _ = execute_cached(&mut cache, "SELECT 1", |_sql: &str| {
        calls.set(calls.get() + 1);
        (answer("one"), 0)
    });
    let other = execute_cached(&mut cache, "SELECT 2", |sql: &str| {
        calls.set(calls.get() + 1);
        (answer(&format!("answer to {}", sql)), 0)
    });
    assert_eq!(other, Ok("answer to SELECT 2".to_string()));
    assert_eq!(calls.get(), 2);
    assert_eq!(cache.len(), 2);
}

#[test]
fn empty_answer_is_stored_too() {
    let mut cache = ResultCache::new();
    let out = settle_reply(&mut cache, "q", answer(""), 5);
    assert_eq!(out, Ok(String::new()));
    assert_eq!(cache.len(), 1);
    assert_eq!(plan_query(&cache, "q"), CachePlan::Serve(String::new()));
}

#[test]
fn failures_are_errors_and_store_nothing() {
    let mut cache = ResultCache::new();
    for status in [400u16, 404, 499, 500, 503, 599] {
        let reply = BackendReply::Answer { status, body: "no".to_string() };
        assert_eq!(
            settle_reply(&mut cache, "q", reply, 1),
            Err(BackendError::Status { status, body: "no".to_string() })
        );
    }
    assert_eq!(settle_reply(&mut cache, "q", BackendReply::Unreachable, 1), Err(BackendError::Transport));
    assert_eq!(cache.len(), 0);
    assert_eq!(plan_query(&cache, "q"), CachePlan::Fetch);
    for status in [200u16, 204, 302, 399, 600] {
        let reply = BackendReply::Answer { status, body: "yes".to_string() };
        assert_eq!(settle_reply(&mut cache, "q", reply, 1), Ok("yes".to_string()));
    }
    assert_eq!(cache.len(), 5);
}

#[test]
fn newest_entry_with_the_exact_text_wins() {
    let mut cache = ResultCache::new();
    let entry = |hash: &str, text: &str, payload: &str| CacheEntry {
        query_hash: hash.to_string(),
        query_string: text.to_string(),
        result_payload: payload.to_string(),
        duration_ms: 0,
    };
    cache.record(entry("h", "a", "old"));
    cache.record(entry("h", "b", "collides"));
    cache.record(entry("h", "a", "new"));
    cache.record(entry("other", "a", "other hash"));
    assert_eq!(cache.lookup("h", "a"), Some("new".to_string()));
    assert_eq!(cache.lookup("h", "b"), Some("collides".to_string()));
    assert_eq!(cache.lookup("h", "c"), None);
    assert_eq!(cache.lookup("x", "a"), None);
}

#[test]
fn stored_entry_holds_fingerprint_text_answer_and_time() {
    let mut cache = ResultCache::new();
    let _ = settle_reply(&mut cache, "SELECT 1", answer("body"), 77);
    assert_eq!(cache.lookup(&query_fingerprint("SELECT 1"), "SELECT 1"), Some("body".to_string()));
    assert_eq!(cache.lookup(&query_fingerprint("SELECT 2"), "SELECT 1"), None);
}

#[test]
fn unreadable_cached_answer_counts_as_a_miss() {
    let plan = CachePlan::Serve("garbage".to_string());
    assert_eq!(plan_after_decode(plan.clone(), true), plan);
    assert_eq!(plan_after_decode(plan, false), CachePlan::Fetch);
    assert_eq!(plan_after_decode(CachePlan::Fetch, true), CachePlan::Fetch);
}

#[test]
fn duration_keeps_the_low_32_bits() {
    assert_eq!(duration_ms(0), 0);
    assert_eq!(duration_ms(1500), 1500);
    assert_eq!(duration_ms(u32::MAX as u128), u32::MAX);
    assert_eq!(duration_ms((1u128 << 32) + 5), 5);
}

#[test]
fn backend_that_must_not_be_called_is_not_called_on_a_hit() {
    let mut cache = ResultCache::new();
    let _ = settle_reply(&mut cache, "SELECT 1", answer("kept"), 3);
    let out = execute_cached(&mut cache, "SELECT 1", |_sql: &str| -> (BackendReply, u128) {
        panic!("the backend was asked although the cache holds the answer")
    });
    assert_eq!(out, Ok("kept".to_string()));
    assert_eq!(cache.len(), 1);
}

#[test]
fn caller_that_does_not_know_the_cache_gets_the_same_answers() {
    let calls = Cell::new(0u32);
    let mut cache = ResultCache::new();
    for _ in 0..3 {
        let out = fetch_cached(&mut cache, "SELECT 3", |_sql: &str| {
            calls.set(calls.get() + 1);
            (answer("three"), 2)
        });
        assert_eq!(out, Ok("three".to_string()));
    }
    assert_eq!(calls.get(), 1);
    assert_eq!(cache.len(), 1);
}

#[test]
fn accepted_reply_gives_the_entry_to_store() {
    assert_eq!(
        entry_for_reply("SELECT 1", answer("body"), (1u128 << 32) + 9),
        Ok(CacheEntry {
            query_hash: query_fingerprint("SELECT 1"),
            query_string: "SELECT 1".to_string(),
            result_payload: "body".to_string(),
            duration_ms: 9,
        })
    );
    assert_eq!(
        entry_for_reply("q", BackendReply::Answer { status: 500, body: "down".to_string() }, 1),
        Err(BackendError::Status { status: 500, body: "down".to_string() })
    );
    assert_eq!(entry_for_reply("q", BackendReply::Unreachable, 1), Err(BackendError::Transport));
}
