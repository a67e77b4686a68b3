use vstd::prelude::*;
use vstd::string::*;

use crate::text::{
    after_last, before_char, find_char, last_segment, last_segment_of, lemma_after_last_bound,
    i64_to_text, lemma_before_char_bound, lemma_parsed_has_no, parse_i64, parsed_i64,
    starts_with,
};

verus! {

/// How long a lock record stays valid without a keep-alive, in microseconds.
pub const LOCK_LEASE_MICROS: i64 = 10_000_000;

/// The record of a held lock: who holds it and until when.
#[derive(Clone, Debug)]
pub struct LockRecord {
    pub lock_id: String,
    pub node: String,
    pub expiration: i64,
}

/// The lock is held at `now`: a record exists and its expiration is not in the past.
pub open spec fn held_at(current: Option<LockRecord>, now: i64) -> bool {
    current matches Some(rec) && rec.expiration >= now
}

/// The store after an attempt by `candidate` at `now`, and whether it got the lock: a
/// stale record is purged first, then the record is created only if none exists.
pub open spec fn acquire_result(current: Option<LockRecord>, now: i64, candidate: LockRecord) -> (Option<LockRecord>, bool) {
    if held_at(current, now) {
        (current, false)
    } else {
        (Some(candidate), true)
    }
}

/// The lock ids that `release` by `lock_id` accepts as its own.
pub open spec fn owned_by(rec: LockRecord, lock_id: Seq<char>) -> bool {
    lock_id.len() <= rec.lock_id@.len() && rec.lock_id@.take(lock_id.len() as int) == lock_id
}

/// The store after `lock_id` releases: the record goes only if it is still ours.
pub open spec fn release_result(current: Option<LockRecord>, lock_id: Seq<char>) -> Option<LockRecord> {
    match current {
        Some(rec) => if owned_by(rec, lock_id) {
            None
        } else {
            current
        },
        None => None,
    }
}

/// Decides an attempt to take a lock whose stored record is `current`.
pub fn try_acquire(current: Option<LockRecord>, now: i64, candidate: LockRecord) -> (r: (Option<LockRecord>, bool))
    ensures
        r == acquire_result(current, now, candidate),
{
    match current {
        Some(rec) => {
            if rec.expiration >= now {
                (Some(rec), false)
            } else {
                (Some(candidate), true)
            }
        },
        None => (Some(candidate), true),
    }
}

/// Decides a release by `lock_id`: a record that another holder took over stays.
pub fn release(current: Option<LockRecord>, lock_id: &str) -> (r: Option<LockRecord>)
    ensures
        r == release_result(current, lock_id@),
{
    match current {
        Some(rec) => {
            if starts_with(rec.lock_id.as_str(), lock_id) {
                None
            } else {
                Some(rec)
            }
        },
        None => None,
    }
}

/// The record that a keep-alive writes at `now`: the lease starts again.
pub fn refresh(rec: LockRecord, now: i64) -> (r: LockRecord)
    requires
        now <= i64::MAX - LOCK_LEASE_MICROS,
    ensures
        r.lock_id == rec.lock_id,
        r.node == rec.node,
        r.expiration == now + LOCK_LEASE_MICROS,
{
    LockRecord { lock_id: rec.lock_id, node: rec.node, expiration: now + LOCK_LEASE_MICROS }
}

/// The key under which the lock of `key` is stored.
pub fn lock_key(key: &str) -> (r: String)
    ensures
        r@ == "/locker"@ + key@,
{
    let base = String::from_str("/locker");
    base.concat(key)
}

/// The expiration written at the end of a lock record `lock_id:node:expiration`.
pub open spec fn lock_expiration_spec(value: Seq<char>) -> Option<i64> {
    parsed_i64(last_segment(value, ':'))
}

/// Reads the expiration of a stored lock record; `None` when it is not a number.
pub fn lock_expiration(value: &str) -> (r: Option<i64>)
    ensures
        r == lock_expiration_spec(value@),
{
    parse_i64(last_segment_of(value, ':'))
}

/// Whether a stored lock record has expired at `now` and may be purged; `None` for a
/// record without a readable expiration.
pub fn lock_is_stale(value: &str, now: i64) -> (r: Option<bool>)
    ensures
        r == match lock_expiration_spec(value@) {
            Some(e) => Some(e < now),
            None => None,
        },
{
    match lock_expiration(value) {
        Some(e) => Some(e < now),
        None => None,
    }
}

/// The node field of a stored record `lock_id:node:expiration`: the text between the
/// first and the last `:`.
pub open spec fn node_field(value: Seq<char>) -> Seq<char> {
    let a = before_char(value, ':') + 1;
    let b = after_last(value, ':') - 1;
    if a < b {
        value.subrange(a, b)
    } else {
        Seq::empty()
    }
}

/// Reads a stored lock record `lock_id:node:expiration`; `None` when it has no `:` or its
/// expiration is not a number.
pub fn parse_lock_record(value: &str) -> (r: Option<LockRecord>)
    ensures
        r is Some == (before_char(value@, ':') < value@.len() && lock_expiration_spec(value@) is Some),
        r matches Some(rec) ==> {
            &&& rec.lock_id@ == value@.take(before_char(value@, ':'))
            &&& rec.node@ == node_field(value@)
            &&& Some(rec.expiration) == lock_expiration_spec(value@)
        },
{
    let n = value.unicode_len();
    let first = find_char(value, ':');
    if first >= n {
        return None;
    }
    let expiration = match lock_expiration(value) {
        Some(e) => e,
        None => {
            return None;
        },
    };
    proof {
        lemma_after_last_bound(value@, ':');
        lemma_before_char_bound(value@, ':');
    }
    let tail = last_segment_of(value, ':');
    let last = n - tail.unicode_len();
    assert(last == after_last(value@, ':'));
    let lock_id = value.substring_char(0, first).to_owned();
    let node = if last > first && last - first > 2 {
        value.substring_char(first + 1, last - 1).to_owned()
    } else {
        String::new()
    };
    Some(LockRecord { lock_id, node, expiration })
}

/// The stored form of a record: `lock_id:node:expiration`, the expiration in decimal.
pub fn lock_value(rec: &LockRecord) -> (r: String)
    ensures
        exists|digits: Seq<char>|
            #![trigger parsed_i64(digits)]
            parsed_i64(digits) == Some(rec.expiration) && r@ == rec.lock_id@ + seq![':'] + rec.node@
                + seq![':'] + digits,
{
    let digits = i64_to_text(rec.expiration);
    let r = String::from_str(rec.lock_id.as_str()).concat(":").concat(rec.node.as_str()).concat(
        ":",
    ).concat(digits.as_str());
    proof {
        reveal_strlit(":");
        assert(r@ =~= rec.lock_id@ + seq![':'] + rec.node@ + seq![':'] + digits@);
    }
    r
}

proof fn lemma_before_first_colon(a: Seq<char>, b: Seq<char>)
    requires
        !a.contains(':'),
    ensures
        before_char(a + seq![':'] + b, ':') == a.len(),
    decreases a.len(),
{
    let s = a + seq![':'] + b;
    if a.len() == 0 {
        assert(s[0] == ':');
    } else {
        assert(s.drop_first() =~= a.drop_first() + seq![':'] + b);
        assert(!a.drop_first().contains(':')) by {
            if a.drop_first().contains(':') {
                let i = choose|i: int| 0 <= i < a.drop_first().len() && a.drop_first()[i] == ':';
                assert(a[i + 1] == ':');
            }
        }
        lemma_before_first_colon(a.drop_first(), b);
        assert(s[0] == a[0]);
        assert(a[0] != ':');
    }
}

proof fn lemma_after_last_colon(p: Seq<char>, d: Seq<char>)
    requires
        !d.contains(':'),
    ensures
        after_last(p + seq![':'] + d, ':') == p.len() + 1,
    decreases d.len(),
{
    let x = p + seq![':'] + d;
    if d.len() > 0 {
        assert(x.drop_last() =~= p + seq![':'] + d.drop_last());
        assert(x.last() == d.last());
        assert(d.last() != ':') by {
            assert(d[d.len() - 1] == d.last());
        }
        assert(!d.drop_last().contains(':')) by {
            if d.drop_last().contains(':') {
                let i = choose|i: int| 0 <= i < d.drop_last().len() && d.drop_last()[i] == ':';
                assert(d[i] == ':');
            }
        }
        lemma_after_last_colon(p, d.drop_last());
    } else {
        assert(x =~= p.push(':'));
    }
}

/// A written record reads back as the same record, for a lock id without `:`.
pub proof fn lock_value_reads_back(rec: LockRecord, value: Seq<char>, digits: Seq<char>)
    requires
        !rec.lock_id@.contains(':'),
        parsed_i64(digits) == Some(rec.expiration),
        value == rec.lock_id@ + seq![':'] + rec.node@ + seq![':'] + digits,
    ensures
        before_char(value, ':') < value.len(),
        value.take(before_char(value, ':')) == rec.lock_id@,
        node_field(value) == rec.node@,
        lock_expiration_spec(value) == Some(rec.expiration),
{
    let id = rec.lock_id@;
    let p = id + seq![':'] + rec.node@;
    assert(value =~= id + seq![':'] + (rec.node@ + seq![':'] + digits));
    lemma_before_first_colon(id, rec.node@ + seq![':'] + digits);
    lemma_parsed_has_no(digits, ':');
    assert(value =~= p + seq![':'] + digits);
    lemma_after_last_colon(p, digits);
    assert(last_segment(value, ':') =~= digits);
    assert(value.take(id.len() as int) =~= id);
    if id.len() + 1 < p.len() {
        assert(value.subrange(id.len() + 1int, p.len() as int) =~= rec.node@);
    } else {
        assert(rec.node@.len() == 0);
    }
}

/// A lock that one holder took and has not let expire cannot be taken by anyone else.
pub proof fn lock_excludes_others(start: Option<LockRecord>, t0: i64, a: LockRecord, now: i64, b: LockRecord)
    requires
        a.expiration >= now,
    ensures
        acquire_result(start, t0, a).1 ==> acquire_result(acquire_result(start, t0, a).0, now, b) == (
        acquire_result(start, t0, a).0, false),
{
}

/// Once the holder releases a lock, the next attempt takes it at once.
pub proof fn lock_after_unlock(start: Option<LockRecord>, t0: i64, a: LockRecord, now: i64, c: LockRecord)
    requires
        acquire_result(start, t0, a).1,
    ensures
        acquire_result(release_result(acquire_result(start, t0, a).0, a.lock_id@), now, c) == (
        Some(c), true),
{
    assert(a.lock_id@.take(a.lock_id@.len() as int) =~= a.lock_id@);
}

/// A record whose expiration has passed is purged and the attempt succeeds; the new
/// holder can then release it.
pub proof fn stale_lock_is_reaped(stale: LockRecord, now: i64, b: LockRecord)
    requires
        stale.expiration < now,
    ensures
        acquire_result(Some(stale), now, b) == (Some(b), true),
        release_result(Some(b), b.lock_id@) is None,
{
    assert(b.lock_id@.take(b.lock_id@.len() as int) =~= b.lock_id@);
}

} // verus!
