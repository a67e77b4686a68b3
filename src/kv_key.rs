use base64::Engine;
use vstd::prelude::*;
use vstd::string::*;
use vstd::utf8::{decode_utf8, encode_utf8, valid_utf8};

use crate::text::segment_len;

verus! {

broadcast use vstd::utf8::encode_utf8_valid_utf8, vstd::utf8::encode_utf8_decode_utf8;

/// The padded url-safe base64 text of a byte sequence (`+` and `/` of the standard
/// alphabet written as `-` and `_`).
pub uninterp spec fn base64_url_of(bytes: Seq<u8>) -> Seq<char>;

/// Relies on base64's `URL_SAFE` engine `encode`: the padded url-safe encoding.
#[verifier::external_body]
fn encode_url_safe(input: &[u8]) -> (r: String)
    ensures
        r@ == base64_url_of(input@),
{
    base64::engine::general_purpose::URL_SAFE.encode(input)
}

/// Relies on base64's `URL_SAFE` engine `decode`, which gives back the bytes of any text
/// that its `encode` produced.
#[verifier::external_body]
fn decode_url_safe(input: &str) -> (r: Option<Vec<u8>>)
    ensures
        forall|k: Seq<u8>|
            input@ == #[trigger] base64_url_of(k) ==> r.is_some() && r.unwrap()@ == k,
{
    base64::engine::general_purpose::URL_SAFE.decode(input).ok()
}

/// Relies on `String::from_utf8`, which accepts exactly the valid UTF-8 byte sequences.
#[verifier::external_body]
fn string_from_utf8(bytes: Vec<u8>) -> (r: Option<String>)
    ensures
        valid_utf8(bytes@) ==> r.is_some() && r.unwrap()@ == decode_utf8(bytes@),
{
    String::from_utf8(bytes).ok()
}

/// The wire form of a key: url-safe base64 of its UTF-8 bytes.
pub open spec fn encoded_key(key: Seq<char>) -> Seq<char> {
    base64_url_of(encode_utf8(key))
}

/// Encodes a key so that any key text is accepted by the backing store.
pub fn key_encode(key: &str) -> (r: String)
    ensures
        r@ == encoded_key(key@),
{
    encode_url_safe(key.as_bytes())
}

/// Decodes a key written by `key_encode`; `None` for text that is not such a key.
pub fn key_decode(key: &str) -> (r: Option<String>)
    ensures
        forall|k: Seq<char>|
            key@ == #[trigger] encoded_key(k) ==> r.is_some() && r.unwrap()@ == k,
{
    match decode_url_safe(key) {
        Some(bytes) => string_from_utf8(bytes),
        None => None,
    }
}

/// The text with every leading `/` removed.
pub open spec fn trim_leading_slashes(s: Seq<char>) -> Seq<char>
    decreases s.len(),
{
    if s.len() > 0 && s[0] == '/' {
        trim_leading_slashes(s.drop_first())
    } else {
        s
    }
}

/// Splits a key into its bucket (the first path segment) and the key inside the bucket.
pub open spec fn bucket_split(key: Seq<char>) -> (Seq<char>, Seq<char>) {
    let t = trim_leading_slashes(key);
    (t.take(segment_len(t)), t.skip(segment_len(t)))
}

/// The bucket of `key`, named with `prefix` before its first path segment, and the part of
/// the key that follows that segment.
pub fn bucket_of_key(prefix: &str, key: &str) -> (r: (String, String))
    ensures
        r.0@ == prefix@ + bucket_split(key@).0,
        r.1@ == bucket_split(key@).1,
{
    let n = key.unicode_len();
    let mut start: usize = 0;
    assert(key@.skip(0) =~= key@);
    while start < n && key.get_char(start) == '/'
        invariant
            start <= n,
            n == key@.len(),
            trim_leading_slashes(key@.skip(start as int)) == trim_leading_slashes(key@),
        decreases n - start,
    {
        assert(key@.skip(start as int).drop_first() =~= key@.skip(start + 1));
        start = start + 1;
    }
    let ghost t = key@.skip(start as int);
    assert(trim_leading_slashes(t) == t);
    let mut end: usize = start;
    while end < n && key.get_char(end) != '/'
        invariant
            start <= end <= n,
            n == key@.len(),
            t == key@.skip(start as int),
            segment_len(t) == (end - start) + segment_len(key@.skip(end as int)),
        decreases n - end,
    {
        assert(key@.skip(end as int).drop_first() =~= key@.skip(end + 1));
        end = end + 1;
    }
    assert(t.take(end - start) =~= key@.subrange(start as int, end as int));
    assert(t.skip(end - start) =~= key@.subrange(end as int, n as int));
    let bucket = String::from_str(prefix).concat(key.substring_char(start, end));
    let rest = key.substring_char(end, n).to_owned();
    (bucket, rest)
}

/// The text with every trailing `/` removed.
pub open spec fn trim_trailing_slashes(s: Seq<char>) -> Seq<char>
    decreases s.len(),
{
    if s.len() > 0 && s.last() == '/' {
        trim_trailing_slashes(s.drop_last())
    } else {
        s
    }
}

/// Prefix of the key-value buckets shared by a super cluster.
pub const SUPER_CLUSTER_PREFIX: &'static str = "super_cluster_kv_";

/// The replicated key-value backend; bucket names start with `prefix`.
pub struct NatsDb {
    prefix: String,
}

impl View for NatsDb {
    type V = Seq<char>;

    closed spec fn view(&self) -> Seq<char> {
        self.prefix@
    }
}

impl NatsDb {
    /// A backend whose bucket prefix is `prefix` without trailing slashes.
    pub fn new(prefix: &str) -> (r: NatsDb)
        ensures
            r@ == trim_trailing_slashes(prefix@),
    {
        let n = prefix.unicode_len();
        let mut end: usize = n;
        assert(prefix@.take(n as int) =~= prefix@);
        while end > 0 && prefix.get_char(end - 1) == '/'
            invariant
                end <= n,
                n == prefix@.len(),
                trim_trailing_slashes(prefix@.take(end as int)) == trim_trailing_slashes(prefix@),
            decreases end,
        {
            assert(prefix@.take(end as int).drop_last() =~= prefix@.take(end - 1));
            end = end - 1;
        }
        assert(prefix@.take(end as int) =~= trim_trailing_slashes(prefix@.take(end as int)));
        NatsDb { prefix: prefix.substring_char(0, end).to_owned() }
    }

    /// The backend of the super cluster.
    pub fn super_cluster() -> (r: NatsDb)
        ensures
            r@ == SUPER_CLUSTER_PREFIX@,
    {
        proof {
            reveal_strlit("super_cluster_kv_");
        }
        NatsDb::new(SUPER_CLUSTER_PREFIX)
    }

    /// The bucket prefix.
    pub fn prefix(&self) -> (r: &str)
        ensures
            r@ == self@,
    {
        self.prefix.as_str()
    }
}

/// The single-node SQL backend.
pub struct SqliteDb {}

impl SqliteDb {
    pub fn new() -> (r: SqliteDb) {
        SqliteDb {  }
    }
}

} // verus!
