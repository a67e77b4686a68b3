use vstd::prelude::*;
use vstd::string::*;

use crate::text::starts_with;

verus! {

/// A change seen in the backing store.
#[derive(Clone, Copy, Debug, PartialEq, Eq, Structural)]
pub enum WatchOp {
    Put,
    Delete,
}

/// A change delivered to a subscriber, under its full key.
#[derive(Clone, Debug, PartialEq, Eq)]
pub enum Event {
    Put(String, Vec<u8>),
    Delete(String),
}

/// Turns a change of `item_key` in a bucket into the event that a watcher of `watched`
/// receives: none when the key is outside what it watches. The event key is the bucket's
/// path followed by the item key.
pub fn watch_event(watched: &str, bucket_path: &str, item_key: &str, op: WatchOp, value: Vec<u8>) -> (r: Option<Event>)
    ensures
        !(watched@.len() <= item_key@.len() && item_key@.take(watched@.len() as int) == watched@)
            ==> r is None,
        (watched@.len() <= item_key@.len() && item_key@.take(watched@.len() as int) == watched@)
            ==> match r {
            Some(Event::Put(k, v)) => op == WatchOp::Put && k@ == bucket_path@ + item_key@ && v == value,
            Some(Event::Delete(k)) => op == WatchOp::Delete && k@ == bucket_path@ + item_key@,
            None => false,
        },
{
    if !starts_with(item_key, watched) {
        return None;
    }
    let key = String::from_str(bucket_path).concat(item_key);
    match op {
        WatchOp::Put => Some(Event::Put(key, value)),
        WatchOp::Delete => Some(Event::Delete(key)),
    }
}

/// The subscribers, by position, whose prefix the key begins with.
pub open spec fn subscribers_of(prefixes: Seq<String>, key: Seq<char>) -> Seq<usize>
    decreases prefixes.len(),
{
    if prefixes.len() == 0 {
        Seq::empty()
    } else {
        let rest = subscribers_of(prefixes.drop_last(), key);
        let p = prefixes.last()@;
        if p.len() <= key.len() && key.take(p.len() as int) == p {
            rest.push((prefixes.len() - 1) as usize)
        } else {
            rest
        }
    }
}

/// The subscribers that a change of `key` is broadcast to in the single-node store.
pub fn route_event(key: &str, prefixes: &Vec<String>) -> (r: Vec<usize>)
    ensures
        r@ == subscribers_of(prefixes@, key@),
{
    let mut out: Vec<usize> = Vec::new();
    let mut i: usize = 0;
    while i < prefixes.len()
        invariant
            i <= prefixes@.len(),
            out@ == subscribers_of(prefixes@.take(i as int), key@),
        decreases prefixes@.len() - i,
    {
        proof {
            assert(prefixes@.take(i + 1).drop_last() =~= prefixes@.take(i as int));
        }
        if starts_with(key, prefixes[i].as_str()) {
            out.push(i);
        }
        i = i + 1;
    }
    proof {
        assert(prefixes@.take(i as int) =~= prefixes@);
    }
    out
}

/// A notice from the coordinator's connection.
#[derive(Clone, Copy, Debug, PartialEq, Eq, Structural)]
pub enum ConnectionEvent {
    Connected,
    Disconnected,
    Other,
}

/// Decides when in-memory caches reload from the metadata store: on every connection
/// after the first, since events may have been lost while disconnected.
#[derive(Debug)]
pub struct RefreshGate {
    pub first_connection: bool,
}

impl RefreshGate {
    /// A gate that has seen no connection yet.
    pub fn new() -> (r: RefreshGate)
        ensures
            r.first_connection,
    {
        RefreshGate { first_connection: true }
    }

    /// Whether this event calls for a reload.
    pub fn on_event(&mut self, event: ConnectionEvent) -> (r: bool)
        ensures
            r == (event == ConnectionEvent::Connected && !old(self).first_connection),
            final(self).first_connection == (old(self).first_connection && event
                != ConnectionEvent::Connected),
    {
        match event {
            ConnectionEvent::Connected => {
                if self.first_connection {
                    self.first_connection = false;
                    false
                } else {
                    true
                }
            },
            _ => false,
        }
    }
}

} // verus!
