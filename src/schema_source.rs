use vstd::prelude::*;
use vstd::string::*;

use crate::meta_keys::after_segment;
use crate::text::{lemma_segment_len_bound, parse_i64, parsed_i64, segment_end, segment_len};

verus! {

/// What the schema table lists of one schema version of a stream.
#[derive(Clone, Debug, PartialEq, Eq)]
pub struct SchemaVersionRow {
    pub org: String,
    pub stream_type: String,
    pub stream_name: String,
    pub num_fields: usize,
    pub start_dt: i64,
    pub end_dt: i64,
    pub timestamp: i64,
}

/// A cached schema version: its field count and the `start_dt` / `end_dt` texts of its
/// metadata, when present.
#[derive(Clone, Debug)]
pub struct SchemaEntry {
    pub num_fields: usize,
    pub start_dt: Option<String>,
    pub end_dt: Option<String>,
}

/// A metadata time: the number it writes, 0 when missing or not a number.
pub open spec fn dt_or_zero(v: Option<String>) -> i64 {
    match v {
        Some(s) => match parsed_i64(s@) {
            Some(x) => x,
            None => 0,
        },
        None => 0,
    }
}

/// A stream key `org/stream_type/stream_name...` has at least three path segments.
pub open spec fn key_ok(key: Seq<char>) -> bool {
    segment_len(key) < key.len() && segment_len(after_segment(key)) < after_segment(key).len()
}

/// The three first path segments of a stream key.
pub open spec fn key_parts(key: Seq<char>) -> (Seq<char>, Seq<char>, Seq<char>) {
    let r1 = after_segment(key);
    let r2 = after_segment(r1);
    (key.take(segment_len(key)), r1.take(segment_len(r1)), r2.take(segment_len(r2)))
}

/// The versions listed, in order, with the key of their stream; streams whose key has
/// fewer than three segments are left out.
pub open spec fn listed(streams: Seq<(String, Vec<SchemaEntry>)>) -> Seq<(Seq<char>, SchemaEntry)>
    decreases streams.len(),
{
    if streams.len() == 0 {
        Seq::empty()
    } else {
        let rest = listed(streams.drop_last());
        let key = streams.last().0@;
        if key_ok(key) {
            rest + streams.last().1@.map_values(|e: SchemaEntry| (key, e))
        } else {
            rest
        }
    }
}

pub open spec fn row_of(row: SchemaVersionRow, key: Seq<char>, e: SchemaEntry) -> bool {
    &&& row.org@ == key_parts(key).0
    &&& row.stream_type@ == key_parts(key).1
    &&& row.stream_name@ == key_parts(key).2
    &&& row.num_fields == e.num_fields
    &&& row.start_dt == dt_or_zero(e.start_dt)
    &&& row.end_dt == dt_or_zero(e.end_dt)
    &&& row.timestamp == row.start_dt
}

fn dt_value(v: &Option<String>) -> (r: i64)
    ensures
        r == dt_or_zero(*v),
{
    match v {
        Some(s) => match parse_i64(s.as_str()) {
            Some(x) => x,
            None => 0,
        },
        None => 0,
    }
}

/// Splits a stream key into its first three segments; `None` when it has fewer.
fn split_stream_key(key: &str) -> (r: Option<(String, String, String)>)
    ensures
        r is Some == key_ok(key@),
        r matches Some((a, b, c)) ==> a@ == key_parts(key@).0 && b@ == key_parts(key@).1 && c@
            == key_parts(key@).2,
{
    let n = key.unicode_len();
    assert(key@.skip(0) =~= key@);
    let e1 = segment_end(key, 0);
    if e1 >= n {
        return None;
    }
    let ghost r1 = after_segment(key@);
    assert(r1 =~= key@.skip(e1 + 1));
    let e2 = segment_end(key, e1 + 1);
    proof {
        lemma_segment_len_bound(r1);
        assert(segment_len(r1) == e2 - e1 - 1);
    }
    if e2 >= n {
        return None;
    }
    let ghost r2 = after_segment(r1);
    assert(r2 =~= key@.skip(e2 + 1));
    let e3 = segment_end(key, e2 + 1);
    proof {
        lemma_segment_len_bound(r2);
        lemma_segment_len_bound(key@);
        assert(segment_len(r2) == e3 - e2 - 1);
    }
    assert(key@.take(segment_len(key@)) =~= key@.subrange(0, e1 as int));
    assert(r1.take(segment_len(r1)) =~= key@.subrange(e1 + 1, e2 as int));
    assert(r2.take(segment_len(r2)) =~= key@.subrange(e2 + 1, e3 as int));
    let a = key.substring_char(0, e1).to_owned();
    let b = key.substring_char(e1 + 1, e2).to_owned();
    let c = key.substring_char(e2 + 1, e3).to_owned();
    Some((a, b, c))
}

/// The schema versions of all streams, as a table.
pub struct InMemorySchemaDS {
    pub data: Vec<SchemaVersionRow>,
    pub last_updated: i64,
}

impl InMemorySchemaDS {
    /// Lists every cached schema version, stamped with the time `now`.
    pub fn load(streams: &Vec<(String, Vec<SchemaEntry>)>, now: i64) -> (r: InMemorySchemaDS)
        ensures
            r.last_updated == now,
            r.data@.len() == listed(streams@).len(),
            forall|k: int|
                0 <= k < r.data@.len() ==> row_of(
                    #[trigger] r.data@[k],
                    listed(streams@)[k].0,
                    listed(streams@)[k].1,
                ),
    {
        let mut data: Vec<SchemaVersionRow> = Vec::new();
        let mut i: usize = 0;
        while i < streams.len()
            invariant
                i <= streams@.len(),
                data@.len() == listed(streams@.take(i as int)).len(),
                forall|k: int|
                    0 <= k < data@.len() ==> row_of(
                        #[trigger] data@[k],
                        listed(streams@.take(i as int))[k].0,
                        listed(streams@.take(i as int))[k].1,
                    ),
            decreases streams@.len() - i,
        {
            let ghost prev = listed(streams@.take(i as int));
            proof {
                assert(streams@.take(i + 1).drop_last() =~= streams@.take(i as int));
            }
            let key = &streams[i].0;
            let entries = &streams[i].1;
            match split_stream_key(key.as_str()) {
                Some((org, stream_type, stream_name)) => {
                    let ghost added = entries@.map_values(|e: SchemaEntry| (key@, e));
                    let mut j: usize = 0;
                    while j < entries.len()
                        invariant
                            j <= entries@.len(),
                            data@.len() == prev.len() + j,
                            added.len() == entries@.len(),
                            forall|k: int| 0 <= k < added.len() ==> #[trigger] added[k] == (key@, entries@[k]),
                            org@ == key_parts(key@).0,
                            stream_type@ == key_parts(key@).1,
                            stream_name@ == key_parts(key@).2,
                            forall|k: int|
                                0 <= k < data@.len() ==> row_of(
                                    #[trigger] data@[k],
                                    (prev + added)[k].0,
                                    (prev + added)[k].1,
                                ),
                        decreases entries@.len() - j,
                    {
                        let e = &entries[j];
                        let start_dt = dt_value(&e.start_dt);
                        let row = SchemaVersionRow {
                            org: org.clone(),
                            stream_type: stream_type.clone(),
                            stream_name: stream_name.clone(),
                            num_fields: e.num_fields,
                            start_dt,
                            end_dt: dt_value(&e.end_dt),
                            timestamp: start_dt,
                        };
                        data.push(row);
                        proof {
                            assert((prev + added)[prev.len() + j] == added[j as int]);
                        }
                        j = j + 1;
                    }
                    proof {
                        assert(listed(streams@.take(i + 1)) =~= prev + added);
                    }
                },
                None => {
                    proof {
                        assert(listed(streams@.take(i + 1)) =~= prev);
                    }
                },
            }
            i = i + 1;
        }
        proof {
            assert(streams@.take(i as int) =~= streams@);
        }
        InMemorySchemaDS { data, last_updated: now }
    }

    /// Whether the table is older than `interval` seconds at `now` and should be loaded
    /// again.
    pub fn needs_refresh(&self, now: i64, interval: i64) -> (r: bool)
        ensures
            r == (now as int - self.last_updated as int > interval as int),
    {
        (now as i128 - self.last_updated as i128) > interval as i128
    }
}

} // verus!
