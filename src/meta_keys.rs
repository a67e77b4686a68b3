use vstd::multiset::Multiset;
use vstd::prelude::*;
use vstd::string::*;

use crate::text::{
    last_segment, last_segment_of, lemma_lex_total, lemma_lex_trans, lex_lt, parse_i64,
    parsed_i64, segment_end, segment_len, starts_with, str_lt, lemma_segment_len_bound,
};

verus! {

broadcast use vstd::seq_lib::group_to_multiset_ensures;

/// The `start_dt` written as the last path segment of a metadata key; 0 when that
/// segment is not a number.
pub open spec fn start_dt_spec(key: Seq<char>) -> i64 {
    match parsed_i64(last_segment(key, '/')) {
        Some(v) => v,
        None => 0,
    }
}

/// Reads the `start_dt` of a metadata key.
pub fn start_dt_of_key(key: &str) -> (r: i64)
    ensures
        r == start_dt_spec(key@),
{
    match parse_i64(last_segment_of(key, '/')) {
        Some(v) => v,
        None => 0,
    }
}

/// The keys, in order, whose `start_dt` lies in `[min_dt, max_dt]`.
pub open spec fn keys_in_range(keys: Seq<String>, min_dt: i64, max_dt: i64) -> Seq<String>
    decreases keys.len(),
{
    if keys.len() == 0 {
        Seq::empty()
    } else {
        let rest = keys_in_range(keys.drop_last(), min_dt, max_dt);
        let dt = start_dt_spec(keys.last()@);
        if min_dt <= dt <= max_dt {
            rest.push(keys.last())
        } else {
            rest
        }
    }
}

/// Keeps the keys whose `start_dt` lies in `[min_dt, max_dt]`.
pub fn filter_keys_by_start_dt(keys: Vec<String>, min_dt: i64, max_dt: i64) -> (r: Vec<String>)
    ensures
        r@ == keys_in_range(keys@, min_dt, max_dt),
{
    let ghost orig = keys@;
    let mut rest = keys;
    let n = rest.len();
    let mut out: Vec<String> = Vec::new();
    let mut i: usize = 0;
    while rest.len() > 0
        invariant
            i + rest@.len() == orig.len(),
            orig.len() == n,
            rest@ == orig.subrange(i as int, orig.len() as int),
            out@ == keys_in_range(orig.take(i as int), min_dt, max_dt),
        decreases rest@.len(),
    {
        let key = rest.remove(0);
        proof {
            assert(key == orig[i as int]);
            assert(orig.take(i + 1).drop_last() =~= orig.take(i as int));
        }
        let dt = start_dt_of_key(key.as_str());
        if min_dt <= dt && dt <= max_dt {
            out.push(key);
        }
        i = i + 1;
    }
    proof {
        assert(orig.take(i as int) =~= orig);
    }
    out
}

/// Keys in ascending order of their `start_dt`.
pub open spec fn sorted_by_start_dt(keys: Seq<String>) -> bool {
    forall|i: int, j: int|
        0 <= i <= j < keys.len() ==> start_dt_spec(#[trigger] keys[i]@) <= start_dt_spec(
            #[trigger] keys[j]@,
        )
}

/// Sorts keys by their `start_dt`, ascending.
pub fn sort_keys_by_start_dt(keys: Vec<String>) -> (r: Vec<String>)
    ensures
        sorted_by_start_dt(r@),
        r@.to_multiset() == keys@.to_multiset(),
{
    let mut rest = keys;
    let mut sorted: Vec<String> = Vec::new();
    while rest.len() > 0
        invariant
            sorted_by_start_dt(sorted@),
            rest@.to_multiset().add(sorted@.to_multiset()) == keys@.to_multiset(),
        decreases rest@.len(),
    {
        let ghost rest_before = rest@;
        let f = rest.pop().unwrap();
        assert(rest_before =~= rest@.push(f));
        let dt = start_dt_of_key(f.as_str());
        let mut pos: usize = 0;
        while pos < sorted.len() && start_dt_of_key(sorted[pos].as_str()) <= dt
            invariant
                0 <= pos <= sorted@.len(),
                dt == start_dt_spec(f@),
                forall|k: int| 0 <= k < pos ==> start_dt_spec(#[trigger] sorted@[k]@) <= dt,
            decreases sorted@.len() - pos,
        {
            pos = pos + 1;
        }
        let ghost old_sorted = sorted@;
        sorted.insert(pos, f);
        assert(sorted_by_start_dt(sorted@)) by {
            assert forall|i: int, j: int| 0 <= i <= j < sorted@.len() implies start_dt_spec(
                #[trigger] sorted@[i]@,
            ) <= start_dt_spec(#[trigger] sorted@[j]@) by {
                if i < pos && j > pos {
                    assert(sorted@[j] == old_sorted[j - 1]);
                    assert(sorted@[i] == old_sorted[i]);
                } else if i == pos && j > pos {
                    assert(sorted@[j] == old_sorted[j - 1]);
                    assert(start_dt_spec(old_sorted[pos as int]@) > dt);
                    assert(start_dt_spec(old_sorted[pos as int]@) <= start_dt_spec(
                        old_sorted[j - 1]@,
                    ));
                } else if i < pos && j == pos {
                    assert(sorted@[i] == old_sorted[i]);
                } else if i < pos && j < pos {
                    assert(sorted@[i] == old_sorted[i]);
                    assert(sorted@[j] == old_sorted[j]);
                } else if i > pos {
                    assert(sorted@[i] == old_sorted[i - 1]);
                    assert(sorted@[j] == old_sorted[j - 1]);
                }
            }
        }
        assert(rest@.push(f).to_multiset() == rest@.to_multiset().insert(f));
        assert(sorted@ == old_sorted.insert(pos as int, f));
        assert(old_sorted.insert(pos as int, f).to_multiset() == old_sorted.to_multiset().insert(f));
        let ghost a = rest@.to_multiset();
        let ghost b = old_sorted.to_multiset();
        assert(a.insert(f).add(b) =~= a.add(b.insert(f)));
    }
    assert(rest@.to_multiset() =~= Multiset::empty());
    assert(sorted@.to_multiset() =~= Multiset::<String>::empty().add(sorted@.to_multiset()));
    sorted
}

/// The keys whose `start_dt` lies in `[min_dt, max_dt]`, in ascending order of
/// `start_dt`: the rows that a listing by time range returns.
pub fn keys_by_start_dt(keys: Vec<String>, min_dt: i64, max_dt: i64) -> (r: Vec<String>)
    ensures
        sorted_by_start_dt(r@),
        r@.to_multiset() == keys_in_range(keys@, min_dt, max_dt).to_multiset(),
{
    let kept = filter_keys_by_start_dt(keys, min_dt, max_dt);
    sort_keys_by_start_dt(kept)
}

pub open spec fn has_prefix(s: Seq<char>, prefix: Seq<char>) -> bool {
    prefix.len() <= s.len() && s.take(prefix.len() as int) == prefix
}

/// The position of the greatest key that begins with `prefix`: the row that a lookup of
/// `prefix` falls back to when no key equals it.
pub fn greatest_key_with_prefix(keys: &Vec<String>, prefix: &str) -> (r: Option<usize>)
    ensures
        r is None <==> forall|j: int| 0 <= j < keys@.len() ==> !has_prefix(#[trigger] keys@[j]@, prefix@),
        r matches Some(i) ==> {
            &&& i < keys@.len()
            &&& has_prefix(keys@[i as int]@, prefix@)
            &&& forall|j: int|
                0 <= j < keys@.len() && has_prefix(#[trigger] keys@[j]@, prefix@) ==> !lex_lt(
                    keys@[i as int]@,
                    keys@[j]@,
                )
        },
{
    let mut best: Option<usize> = None;
    let mut i: usize = 0;
    while i < keys.len()
        invariant
            i <= keys@.len(),
            best is None <==> forall|j: int| 0 <= j < i ==> !has_prefix(#[trigger] keys@[j]@, prefix@),
            best matches Some(b) ==> {
                &&& b < i
                &&& has_prefix(keys@[b as int]@, prefix@)
                &&& forall|j: int|
                    0 <= j < i && has_prefix(#[trigger] keys@[j]@, prefix@) ==> !lex_lt(
                        keys@[b as int]@,
                        keys@[j]@,
                    )
            },
        decreases keys@.len() - i,
    {
        if starts_with(keys[i].as_str(), prefix) {
            match best {
                None => {
                    proof {
                        lemma_lex_total(keys@[i as int]@, keys@[i as int]@);
                    }
                    best = Some(i);
                },
                Some(b) => {
                    if str_lt(keys[b].as_str(), keys[i].as_str()) {
                        proof {
                            assert forall|j: int|
                                0 <= j < i + 1 && has_prefix(#[trigger] keys@[j]@, prefix@) implies !lex_lt(
                                keys@[i as int]@,
                                keys@[j]@,
                            ) by {
                                lemma_lex_total(keys@[i as int]@, keys@[j]@);
                                lemma_lex_total(keys@[b as int]@, keys@[j]@);
                                if j < i && lex_lt(keys@[i as int]@, keys@[j]@) {
                                    lemma_lex_trans(keys@[b as int]@, keys@[i as int]@, keys@[j]@);
                                }
                            }
                        }
                        best = Some(i);
                    } else {
                        proof {
                            lemma_lex_total(keys@[b as int]@, keys@[i as int]@);
                        }
                    }
                },
            }
        }
        i = i + 1;
    }
    best
}

/// A key without one leading and one trailing `/`.
pub open spec fn key_body(key: Seq<char>) -> Seq<char> {
    let t = if key.len() > 0 && key[0] == '/' {
        key.drop_first()
    } else {
        key
    };
    if t.len() > 0 && t.last() == '/' {
        t.drop_last()
    } else {
        t
    }
}

/// The text after the first path segment and its `/` (empty when there is no `/`).
pub open spec fn after_segment(s: Seq<char>) -> Seq<char> {
    if segment_len(s) < s.len() {
        s.skip(segment_len(s) + 1)
    } else {
        Seq::empty()
    }
}

/// The `(module, key1, key2)` coordinates of a metadata key: its first two path segments
/// and the rest.
pub open spec fn key_columns(key: Seq<char>) -> (Seq<char>, Seq<char>, Seq<char>) {
    let b = key_body(key);
    let r1 = after_segment(b);
    (b.take(segment_len(b)), r1.take(segment_len(r1)), after_segment(r1))
}

/// Splits a metadata key into its `(module, key1, key2)` columns.
pub fn parse_key(key: &str) -> (r: (String, String, String))
    ensures
        r.0@ == key_columns(key@).0,
        r.1@ == key_columns(key@).1,
        r.2@ == key_columns(key@).2,
{
    let n = key.unicode_len();
    let mut start: usize = 0;
    if n > 0 && key.get_char(0) == '/' {
        start = 1;
    }
    let mut end: usize = n;
    if end > start && key.get_char(end - 1) == '/' {
        end = end - 1;
    }
    let body = key.substring_char(start, end);
    proof {
        assert(body@ =~= key_body(key@));
    }
    let bn = body.unicode_len();
    let s1 = segment_end(body, 0);
    assert(body@.skip(0) =~= body@);
    let module = body.substring_char(0, s1).to_owned();
    if s1 >= bn {
        proof {
            assert(after_segment(body@) =~= Seq::<char>::empty());
            assert(after_segment(Seq::<char>::empty()) =~= Seq::<char>::empty());
        }
        return (module, String::new(), String::new());
    }
    let s2 = segment_end(body, s1 + 1);
    let ghost r1 = after_segment(body@);
    proof {
        assert(r1 =~= body@.skip(s1 + 1));
        lemma_segment_len_bound(r1);
        assert(r1.take(segment_len(r1)) =~= body@.subrange(s1 + 1, s2 as int));
    }
    let key1 = body.substring_char(s1 + 1, s2).to_owned();
    if s2 >= bn {
        proof {
            assert(after_segment(r1) =~= Seq::<char>::empty());
        }
        return (module, key1, String::new());
    }
    proof {
        assert(after_segment(r1) =~= body@.subrange(s2 + 1, bn as int));
    }
    let key2 = body.substring_char(s2 + 1, bn).to_owned();
    (module, key1, key2)
}

/// The key of a row: its three columns as a path.
pub open spec fn joined_key(module: Seq<char>, key1: Seq<char>, key2: Seq<char>) -> Seq<char> {
    seq!['/'] + module + seq!['/'] + key1 + seq!['/'] + key2
}

/// Writes the key of the row at `(module, key1, key2)`.
pub fn join_key(module: &str, key1: &str, key2: &str) -> (r: String)
    ensures
        r@ == joined_key(module@, key1@, key2@),
{
    let r = String::from_str("/").concat(module).concat("/").concat(key1).concat("/").concat(key2);
    proof {
        reveal_strlit("/");
        assert(r@ =~= joined_key(module@, key1@, key2@));
    }
    r
}

pub open spec fn no_slash(s: Seq<char>) -> bool {
    forall|i: int| 0 <= i < s.len() ==> s[i] != '/'
}

proof fn lemma_segment_of_join(a: Seq<char>, b: Seq<char>)
    requires
        no_slash(a),
    ensures
        segment_len(a + seq!['/'] + b) == a.len(),
        after_segment(a + seq!['/'] + b) == b,
    decreases a.len(),
{
    let s = a + seq!['/'] + b;
    if a.len() == 0 {
        assert(s[0] == '/');
    } else {
        assert(s.drop_first() =~= a.drop_first() + seq!['/'] + b);
        assert(no_slash(a.drop_first())) by {
            assert forall|i: int| 0 <= i < a.drop_first().len() implies a.drop_first()[i] != '/' by {
                assert(a.drop_first()[i] == a[i + 1]);
            }
        }
        lemma_segment_of_join(a.drop_first(), b);
        assert(s[0] == a[0]);
    }
    assert(s.skip(a.len() + 1int) =~= b);
}

/// Reading back the columns of a joined key gives them unchanged, for module and key1
/// without `/` and a key2 that does not end in `/`.
pub proof fn parse_key_of_join_key(module: Seq<char>, key1: Seq<char>, key2: Seq<char>)
    requires
        no_slash(module),
        no_slash(key1),
        key2.len() == 0 || key2.last() != '/',
    ensures
        key_columns(joined_key(module, key1, key2)) == (module, key1, key2),
{
    let k = joined_key(module, key1, key2);
    let t = module + seq!['/'] + key1 + seq!['/'] + key2;
    assert(k.drop_first() =~= t);
    let r1 = key1 + seq!['/'] + key2;
    assert(t =~= module + seq!['/'] + r1);
    if key2.len() > 0 {
        assert(t.last() == key2.last());
        assert(key_body(k) == t);
        lemma_segment_of_join(module, r1);
        lemma_segment_of_join(key1, key2);
        assert(t.take(module.len() as int) =~= module);
        assert(r1.take(key1.len() as int) =~= key1);
        let r2 = after_segment(r1);
        assert(r2 == key2);
        lemma_segment_len_bound(key2);
        if segment_len(key2) < key2.len() {
            assert(after_segment(key2) == key2.skip(segment_len(key2) + 1));
        }
        assert(after_segment(r1) == key2);
    } else {
        let t2 = module + seq!['/'] + key1;
        assert(t.drop_last() =~= t2);
        assert(key_body(k) == t2);
        assert(t2 =~= module + seq!['/'] + key1);
        lemma_segment_of_join(module, key1);
        assert(t2.take(module.len() as int) =~= module);
        lemma_segment_len_no_slash(key1);
        assert(key1.take(key1.len() as int) =~= key1);
        assert(after_segment(key1) =~= Seq::<char>::empty());
    }
}

proof fn lemma_segment_len_no_slash(s: Seq<char>)
    requires
        no_slash(s),
    ensures
        segment_len(s) == s.len(),
    decreases s.len(),
{
    if s.len() > 0 {
        assert(no_slash(s.drop_first())) by {
            assert forall|i: int| 0 <= i < s.drop_first().len() implies s.drop_first()[i] != '/' by {
                assert(s.drop_first()[i] == s[i + 1]);
            }
        }
        lemma_segment_len_no_slash(s.drop_first());
    }
}

/// One row write of an atomic read-modify-write.
#[derive(Clone, Debug, PartialEq, Eq)]
pub enum MetaWrite {
    /// Overwrite the value of the row with this id.
    Update(i64, Vec<u8>),
    /// Insert a row at `(module, key1, key2, start_dt)`.
    Insert(String, String, String, i64, Vec<u8>),
}

/// What an updater asked for: the new value of the row read, and a further row to insert
/// under its own key and `start_dt`.
pub type UpdateRequest = (Option<Vec<u8>>, Option<(String, Vec<u8>, Option<i64>)>);

/// The writes of a read-modify-write, and the change notice to publish after commit.
#[derive(Debug)]
pub struct UpdatePlan {
    pub writes: Vec<MetaWrite>,
    /// `Some(start_dt)` when a change is published for the key; the inner value is the
    /// `start_dt` of the inserted row, when it has a non-zero one.
    pub notice: Option<Option<i64>>,
}

pub open spec fn insert_of(key: Seq<char>, start_dt: i64, value: Vec<u8>, w: MetaWrite) -> bool {
    match w {
        MetaWrite::Insert(m, k1, k2, dt, v) => m@ == key_columns(key).0 && k1@ == key_columns(key).1
            && k2@ == key_columns(key).2 && dt == start_dt && v == value,
        MetaWrite::Update(..) => false,
    }
}

pub open spec fn unwrap_dt(dt: Option<i64>) -> i64 {
    match dt {
        Some(v) => v,
        None => 0,
    }
}

/// Plans the writes of a read-modify-write of `key`. `row` is the id of the row read, if
/// any; `request` is what the updater returned, `None` for no change.
pub fn plan_update(key: &str, row: Option<i64>, start_dt: Option<i64>, need_watch: bool, request: Option<UpdateRequest>) -> (r: UpdatePlan)
    ensures
        request is None ==> r.writes@.len() == 0 && r.notice is None,
        request matches Some((value, extra)) ==> {
            let first = match value {
                Some(v) => match row {
                    Some(id) => seq![MetaWrite::Update(id, v)],
                    None => Seq::empty(),
                },
                None => Seq::empty(),
            };
            &&& (value is Some && row is None) ==> r.writes@.len() >= 1 && insert_of(
                key@,
                unwrap_dt(start_dt),
                value.unwrap(),
                r.writes@[0],
            )
            &&& !(value is Some && row is None) ==> r.writes@.take(first.len() as int) == first
            &&& r.writes@.len() == (if value is Some { 1int } else { 0int }) + (if extra is Some {
                1int
            } else {
                0int
            })
            &&& extra matches Some((k, v, dt)) ==> insert_of(
                k@,
                unwrap_dt(dt),
                v,
                r.writes@[r.writes@.len() - 1],
            )
            &&& r.notice == if need_watch && (value is Some || extra is Some) {
                let dt = match extra {
                    Some((_, _, d)) => unwrap_dt(d),
                    None => 0,
                };
                Some(if dt > 0 { Some(dt) } else { None })
            } else {
                None
            }
        },
{
    let mut writes: Vec<MetaWrite> = Vec::new();
    let (value, extra) = match request {
        None => {
            return UpdatePlan { writes, notice: None };
        },
        Some(req) => req,
    };
    let has_value = value.is_some();
    let has_extra = extra.is_some();
    match value {
        Some(v) => match row {
            Some(id) => {
                writes.push(MetaWrite::Update(id, v));
            },
            None => {
                let (m, k1, k2) = parse_key(key);
                let dt = match start_dt {
                    Some(d) => d,
                    None => 0,
                };
                writes.push(MetaWrite::Insert(m, k1, k2, dt, v));
            },
        },
        None => {},
    }
    let mut watch_dt: i64 = 0;
    match extra {
        Some((k, v, d)) => {
            let (m, k1, k2) = parse_key(k.as_str());
            let dt = match d {
                Some(x) => x,
                None => 0,
            };
            watch_dt = dt;
            writes.push(MetaWrite::Insert(m, k1, k2, dt, v));
        },
        None => {},
    }
    let notice = if need_watch && (has_value || has_extra) {
        Some(
            if watch_dt > 0 {
                Some(watch_dt)
            } else {
                None
            },
        )
    } else {
        None
    };
    UpdatePlan { writes, notice }
}

/// The rows that a delete removes, given by their columns.
#[derive(Clone, Debug, PartialEq, Eq)]
pub enum DeleteScope {
    /// Every row of the module.
    Module(String),
    /// Every row of the module and `key1`.
    Key1(String, String),
    /// Rows of the module and `key1` whose `key2` is the given one or lies below it.
    Key2Tree(String, String, String),
    /// The rows at exactly these columns.
    Exact(String, String, String),
}

/// Which rows a delete of `key` removes: with `with_prefix`, everything under the key's
/// most specific non-empty column.
pub fn delete_scope(key: &str, with_prefix: bool) -> (r: DeleteScope)
    ensures
        match r {
            DeleteScope::Module(m) => with_prefix && m@ == key_columns(key@).0 && key_columns(
                key@,
            ).1.len() == 0,
            DeleteScope::Key1(m, k1) => with_prefix && m@ == key_columns(key@).0 && k1@ == key_columns(
                key@,
            ).1 && k1@.len() > 0 && key_columns(key@).2.len() == 0,
            DeleteScope::Key2Tree(m, k1, k2) => with_prefix && m@ == key_columns(key@).0 && k1@
                == key_columns(key@).1 && k1@.len() > 0 && k2@ == key_columns(key@).2 && k2@.len() > 0,
            DeleteScope::Exact(m, k1, k2) => !with_prefix && m@ == key_columns(key@).0 && k1@
                == key_columns(key@).1 && k2@ == key_columns(key@).2,
        },
{
    let (module, key1, key2) = parse_key(key);
    if !with_prefix {
        DeleteScope::Exact(module, key1, key2)
    } else if key1.as_str().unicode_len() == 0 {
        DeleteScope::Module(module)
    } else if key2.as_str().unicode_len() == 0 {
        DeleteScope::Key1(module, key1)
    } else {
        DeleteScope::Key2Tree(module, key1, key2)
    }
}

/// Whether a row at `(module, key1, key2)` falls in a scope.
pub open spec fn in_scope(scope: DeleteScope, module: Seq<char>, key1: Seq<char>, key2: Seq<char>) -> bool {
    match scope {
        DeleteScope::Module(m) => module == m@,
        DeleteScope::Key1(m, k1) => module == m@ && key1 == k1@,
        DeleteScope::Key2Tree(m, k1, k2) => module == m@ && key1 == k1@ && under(key2, k2@),
        DeleteScope::Exact(m, k1, k2) => module == m@ && key1 == k1@ && key2 == k2@,
    }
}

/// `key2` is `top` or lies below it.
pub open spec fn under(key2: Seq<char>, top: Seq<char>) -> bool {
    key2 == top || has_prefix(key2, top.push('/'))
}

fn in_tree(key2: &str, k2: &str) -> (r: bool)
    ensures
        r == under(key2@, k2@),
{
    if str_eq(key2, k2) {
        return true;
    }
    let n = k2.unicode_len();
    if !starts_with(key2, k2) || key2.unicode_len() <= n {
        proof {
            let p = k2@.push('/');
            if has_prefix(key2@, p) {
                assert(p.take(n as int) =~= k2@);
                assert(key2@.take(p.len() as int).take(n as int) =~= key2@.take(n as int));
                assert(key2@.take(n as int) == k2@);
            }
        }
        return false;
    }
    let below = key2.get_char(n) == '/';
    proof {
        let p = k2@.push('/');
        if below {
            assert(key2@.take(p.len() as int) =~= p) by {
                assert(key2@.take(n as int) == k2@);
            }
        } else if has_prefix(key2@, p) {
            assert(key2@.take(p.len() as int)[n as int] == '/');
        }
    }
    below
}

fn str_eq(a: &str, b: &str) -> (r: bool)
    ensures
        r == (a@ == b@),
{
    if a.unicode_len() != b.unicode_len() {
        return false;
    }
    let same = starts_with(a, b);
    proof {
        assert(a@.take(a@.len() as int) =~= a@);
    }
    same
}

/// Whether the row at `(module, key1, key2)` lies in `scope`.
pub fn row_in_scope(scope: &DeleteScope, module: &str, key1: &str, key2: &str) -> (r: bool)
    ensures
        r == in_scope(*scope, module@, key1@, key2@),
{
    match scope {
        DeleteScope::Module(m) => str_eq(module, m.as_str()),
        DeleteScope::Key1(m, k1) => str_eq(module, m.as_str()) && str_eq(key1, k1.as_str()),
        DeleteScope::Key2Tree(m, k1, k2) => str_eq(module, m.as_str()) && str_eq(key1, k1.as_str())
            && in_tree(key2, k2.as_str()),
        DeleteScope::Exact(m, k1, k2) => str_eq(module, m.as_str()) && str_eq(key1, k1.as_str())
            && str_eq(key2, k2.as_str()),
    }
}

/// The columns that a listing of a prefix constrains: each non-empty column of the
/// prefix, `key2` as a tree.
#[derive(Clone, Debug, PartialEq, Eq)]
pub struct ListFilter {
    pub module: Option<String>,
    pub key1: Option<String>,
    pub key2: Option<String>,
}

pub open spec fn column_filter(col: Seq<char>, f: Option<String>) -> bool {
    match f {
        Some(v) => col.len() > 0 && v@ == col,
        None => col.len() == 0,
    }
}

/// The filter of a listing of `prefix`.
pub fn list_filter(prefix: &str) -> (r: ListFilter)
    ensures
        column_filter(key_columns(prefix@).0, r.module),
        column_filter(key_columns(prefix@).1, r.key1),
        column_filter(key_columns(prefix@).2, r.key2),
{
    let (module, key1, key2) = parse_key(prefix);
    let module = if module.as_str().unicode_len() == 0 {
        None
    } else {
        Some(module)
    };
    let key1 = if key1.as_str().unicode_len() == 0 {
        None
    } else {
        Some(key1)
    };
    let key2 = if key2.as_str().unicode_len() == 0 {
        None
    } else {
        Some(key2)
    };
    ListFilter { module, key1, key2 }
}

/// Whether a listing with filter `f` returns the row at `(module, key1, key2)`.
pub open spec fn listed_by(f: ListFilter, module: Seq<char>, key1: Seq<char>, key2: Seq<char>) -> bool {
    &&& (f.module matches Some(m) ==> module == m@)
    &&& (f.key1 matches Some(k1) ==> key1 == k1@)
    &&& (f.key2 matches Some(k2) ==> under(key2, k2@))
}

/// Whether the row at `(module, key1, key2)` is in a listing with filter `f`.
pub fn row_listed(f: &ListFilter, module: &str, key1: &str, key2: &str) -> (r: bool)
    ensures
        r == listed_by(*f, module@, key1@, key2@),
{
    let a = match &f.module {
        Some(m) => str_eq(module, m.as_str()),
        None => true,
    };
    let b = match &f.key1 {
        Some(k1) => str_eq(key1, k1.as_str()),
        None => true,
    };
    let c = match &f.key2 {
        Some(k2) => in_tree(key2, k2.as_str()),
        None => true,
    };
    a && b && c
}

} // verus!
