//! What the server does with each decoded command: one store operation and
//! the response that reports it.
use std::sync::Arc;
use vstd::prelude::*;
use crate::response::{Response, ResponseView, texts_view};
use crate::store::{DataStore, queue_after_put, without};

verus! {

/// The confirmation that answers a SET or a DELETE.
pub open spec fn ack_text() -> Seq<char> {
    "Hi Client! I'm Dad!"@
}

fn ack() -> (r: Response)
    ensures
        r@ == ResponseView::String(ack_text()),
{
    proof {
        reveal_strlit("Hi Client! I'm Dad!");
    }
    Response::String("Hi Client! I'm Dad!".to_owned())
}

/// Answers a GET: the stored bytes, or `Empty` when the key is absent.
pub fn execute_get(store: &DataStore, key: &str) -> (r: Response)
    requires
        store.wf(),
    ensures
        r@ == if store@.entries.contains_key(key@) {
            ResponseView::Data(store@.entries[key@])
        } else {
            ResponseView::Empty
        },
{
    match store.get(key) {
        Some(data) => Response::Data(data),
        None => Response::Empty,
    }
}

/// Answers a KEYS: every live key, each once.
pub fn execute_keys(store: &DataStore) -> (r: Response)
    requires
        store.wf(),
    ensures
        r@ == ResponseView::Array(store.key_list()),
{
    let keys = store.keys();
    let mut out: Vec<String> = Vec::new();
    let mut i: usize = 0;
    while i < keys.len()
        invariant
            i <= keys@.len(),
            texts_view(out@) == texts_view(keys@).subrange(0, i as int),
        decreases keys@.len() - i,
    {
        let ghost prev = texts_view(out@);
        let c = keys[i].clone();
        assert(c@ == keys@[i as int]@);
        out.push(c);
        assert(texts_view(out@) =~= prev.push(c@));
        i += 1;
        assert(texts_view(out@) =~= texts_view(keys@).subrange(0, i as int));
    }
    assert(texts_view(keys@).subrange(0, keys@.len() as int) =~= texts_view(keys@));
    Response::Array(Arc::new(out))
}

/// Answers a SET: stores the value with its time to live, counted from
/// `now`, and confirms.
pub fn execute_set(store: &mut DataStore, key: &str, value: Vec<u8>, ttl: u64, now: u64) -> (r:
    Response)
    requires
        old(store).wf(),
    ensures
        final(store).wf(),
        final(store)@.entries == old(store)@.entries.insert(key@, value@),
        final(store)@.queue == queue_after_put(old(store)@.queue, key@, ttl, now),
        r@ == ResponseView::String(ack_text()),
{
    store.insert(key, value, ttl, now);
    ack()
}

/// Answers a DELETE: removes the key, if present, and confirms.
pub fn execute_delete(store: &mut DataStore, key: &str) -> (r: Response)
    requires
        old(store).wf(),
    ensures
        final(store).wf(),
        final(store)@.entries == old(store)@.entries.remove(key@),
        final(store)@.queue == without(old(store)@.queue, key@),
        r@ == ResponseView::String(ack_text()),
{
    store.delete(key);
    ack()
}

} // verus!
