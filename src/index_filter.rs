use vstd::multiset::Multiset;
use vstd::prelude::*;

use crate::file_group::{
    files_wf, group_files_by_time_range, groups_files, groups_ok, lemma_groups_files_insert,
    lemma_groups_files_push, lemma_groups_files_remove, FileKey, FileMeta,
};

verus! {

broadcast use vstd::seq_lib::group_to_multiset_ensures;

/// An optional shortcut for files that lie wholly inside the query's time range.
#[derive(Clone, Copy, Debug, PartialEq, Eq, Structural)]
pub enum OptimizeRule {
    /// At most `limit` rows, lowest doc ids first when ascending; a limit of 0 sets no
    /// limit.
    SimpleSelect(usize, bool),
    /// Only the number of matching rows.
    SimpleCount,
    /// Counts of matching rows per `_timestamp` bucket: minimum, bucket width, bucket count.
    SimpleHistogram(i64, u64, usize),
}

/// The collector that an index search runs with.
#[derive(Clone, Copy, Debug, PartialEq, Eq, Structural)]
pub enum Collector {
    DocSet,
    TopDocs(usize, bool),
    Count,
    Histogram(i64, u64, usize),
}

pub open spec fn in_range(meta: FileMeta, start: i64, end: i64) -> bool {
    meta.min_ts >= start && meta.max_ts < end
}

/// Whether the file lies wholly inside `[start, end)`.
pub fn file_in_range(meta: &FileMeta, start: i64, end: i64) -> (r: bool)
    ensures
        r == in_range(*meta, start, end),
{
    meta.min_ts >= start && meta.max_ts < end
}

pub open spec fn collector_for(in_range: bool, rule: Option<OptimizeRule>) -> Collector {
    if !in_range {
        Collector::DocSet
    } else {
        match rule {
            None => Collector::DocSet,
            Some(OptimizeRule::SimpleSelect(limit, ascend)) => if limit == 0 {
                Collector::DocSet
            } else {
                Collector::TopDocs(limit, ascend)
            },
            Some(OptimizeRule::SimpleCount) => Collector::Count,
            Some(OptimizeRule::SimpleHistogram(min, width, n)) => Collector::Histogram(min, width, n),
        }
    }
}

/// The collector for a file: the rule's own only when the file lies wholly in the time
/// range, so that other files can be filtered by time afterwards. A select without a
/// limit collects every match.
pub fn select_collector(in_range: bool, rule: Option<OptimizeRule>) -> (r: Collector)
    ensures
        r == collector_for(in_range, rule),
{
    if !in_range {
        return Collector::DocSet;
    }
    match rule {
        None => Collector::DocSet,
        Some(OptimizeRule::SimpleSelect(limit, ascend)) => {
            if limit == 0 {
                Collector::DocSet
            } else {
                Collector::TopDocs(limit, ascend)
            }
        },
        Some(OptimizeRule::SimpleCount) => Collector::Count,
        Some(OptimizeRule::SimpleHistogram(min, width, n)) => Collector::Histogram(min, width, n),
    }
}

pub open spec fn is_count(rule: Option<OptimizeRule>) -> bool {
    rule == Some(OptimizeRule::SimpleCount)
}

/// More rows match than `threshold` percent of the file; a threshold of 0 never fires.
pub open spec fn over_threshold(matched: int, records: int, threshold: int, rule: Option<OptimizeRule>) -> bool {
    threshold > 0 && matched * 100 > records * threshold && !is_count(rule)
}

/// Whether the match set is so large that scanning without a bitmap is cheaper.
pub fn exceeds_skip_threshold(matched: usize, records: i64, threshold: usize, rule: Option<OptimizeRule>) -> (r: bool)
    requires
        records >= 0,
    ensures
        r == over_threshold(matched as int, records as int, threshold as int, rule),
{
    if threshold == 0 {
        return false;
    }
    if let Some(OptimizeRule::SimpleCount) = rule {
        return false;
    }
    proof {
        let a = records as u128 as int;
        let b = threshold as u128 as int;
        assert(a * b <= 0x7fff_ffff_ffff_ffff * 0xffff_ffff_ffff_ffff) by (nonlinear_arith)
            requires
                0 <= a <= 0x7fff_ffff_ffff_ffff,
                0 <= b <= 0xffff_ffff_ffff_ffff,
        ;
    }
    let lhs = (matched as u128) * 100;
    let rhs = (records as u128) * (threshold as u128);
    lhs > rhs
}

/// Why the index of one file could not be used.
#[derive(Clone, Copy, Debug, PartialEq, Eq, Structural)]
pub enum IndexError {
    /// The index holds more than one segment.
    MultipleSegments,
    /// A matching doc id is not a row of the file.
    DocIdOutOfRange(u32),
    /// The index could not be opened or read.
    Unreadable,
}

/// What the index says of one file.
#[derive(Clone, Debug, PartialEq, Eq)]
pub enum FileIndexResult {
    /// A count or a histogram stands for the file's rows.
    Counted(usize, Vec<u64>),
    /// No row matches.
    NoMatch,
    /// Too many rows match: scan the file and filter it there.
    Skipped,
    /// The rows that match, one flag per row, and how many they are.
    Matched(Vec<bool>, usize),
}

pub open spec fn all_below(docs: Seq<u32>, records: int) -> bool {
    forall|i: int| 0 <= i < docs.len() ==> (#[trigger] docs[i]) < records
}

/// Whether row `i` is among `docs`.
pub open spec fn has_doc(docs: Seq<u32>, i: int) -> bool {
    exists|j: int| 0 <= j < docs.len() && docs[j] as int == i
}

/// One flag per row, set exactly for the rows in `docs`.
pub open spec fn is_bitmap_of(bitmap: Seq<bool>, docs: Seq<u32>, records: int) -> bool {
    &&& bitmap.len() == records
    &&& forall|i: int| 0 <= i < records ==> #[trigger] bitmap[i] == has_doc(docs, i)
}

/// Builds the row bitmap of a file from the matching doc ids.
pub fn build_bitmap(docs: &Vec<u32>, records: usize) -> (r: Result<Vec<bool>, IndexError>)
    ensures
        r.is_ok() == all_below(docs@, records as int),
        r matches Ok(b) ==> is_bitmap_of(b@, docs@, records as int),
        r matches Err(e) ==> exists|i: int|
            0 <= i < docs@.len() && e == IndexError::DocIdOutOfRange(#[trigger] docs@[i]) && docs@[i]
                >= records,
{
    let mut k: usize = 0;
    while k < docs.len()
        invariant
            k <= docs@.len(),
            forall|i: int| 0 <= i < k ==> (#[trigger] docs@[i]) < records,
        decreases docs@.len() - k,
    {
        if docs[k] as usize >= records {
            return Err(IndexError::DocIdOutOfRange(docs[k]));
        }
        k = k + 1;
    }
    let mut bitmap: Vec<bool> = Vec::new();
    let mut j: usize = 0;
    while j < records
        invariant
            j <= records,
            bitmap@.len() == j,
            forall|i: int| 0 <= i < j ==> !(#[trigger] bitmap@[i]),
        decreases records - j,
    {
        bitmap.push(false);
        j = j + 1;
    }
    let mut k: usize = 0;
    while k < docs.len()
        invariant
            k <= docs@.len(),
            all_below(docs@, records as int),
            bitmap@.len() == records,
            forall|i: int|
                0 <= i < records ==> #[trigger] bitmap@[i] == has_doc(docs@.take(k as int), i),
        decreases docs@.len() - k,
    {
        let d = docs[k];
        let ghost old_bitmap = bitmap@;
        bitmap.set(d as usize, true);
        proof {
            assert forall|i: int| 0 <= i < records implies #[trigger] bitmap@[i] == has_doc(
                docs@.take(k + 1),
                i,
            ) by {
                let t = docs@.take(k + 1);
                let p = docs@.take(k as int);
                assert(t[k as int] == d);
                if i != d as int {
                    assert(bitmap@[i] == old_bitmap[i]);
                }
                if has_doc(p, i) {
                    let w = choose|w: int| 0 <= w < p.len() && p[w] as int == i;
                    assert(t[w] == p[w]);
                }
                if has_doc(t, i) {
                    let w = choose|w: int| 0 <= w < t.len() && t[w] as int == i;
                    if w < k {
                        assert(t[w] == p[w]);
                    } else {
                        assert(t[w] == d);
                    }
                }
            }
        }
        k = k + 1;
    }
    proof {
        assert(docs@.take(k as int) =~= docs@);
    }
    Ok(bitmap)
}

/// What a search of one file's index gives, from what its collector returned: the
/// matching doc ids, a hit count, and a histogram.
pub open spec fn file_result_ok(docs: Seq<u32>, count: usize, histogram: Seq<u64>, records: int, threshold: int, rule: Option<OptimizeRule>, segments: usize) -> bool {
    count > 0 || histogram.len() > 0 || docs.len() == 0 || over_threshold(
        docs.len() as int,
        records,
        threshold,
        rule,
    ) || (segments <= 1 && all_below(docs, records))
}

/// Turns what the collector returned for one file into the file's result.
pub fn summarize_file_search(
    docs: &Vec<u32>,
    count: usize,
    histogram: Vec<u64>,
    records: i64,
    threshold: usize,
    rule: Option<OptimizeRule>,
    segments: usize,
) -> (r: Result<FileIndexResult, IndexError>)
    requires
        0 <= records <= usize::MAX,
    ensures
        r.is_ok() == file_result_ok(docs@, count, histogram@, records as int, threshold as int, rule, segments),
        (count > 0 || histogram@.len() > 0) ==> r == Ok::<FileIndexResult, IndexError>(
            FileIndexResult::Counted(count, histogram),
        ),
        !(count > 0 || histogram@.len() > 0) && docs@.len() == 0 ==> r == Ok::<FileIndexResult, IndexError>(
            FileIndexResult::NoMatch,
        ),
        !(count > 0 || histogram@.len() > 0) && docs@.len() > 0 && over_threshold(
            docs@.len() as int,
            records as int,
            threshold as int,
            rule,
        ) ==> r == Ok::<FileIndexResult, IndexError>(FileIndexResult::Skipped),
        !(count > 0 || histogram@.len() > 0) && docs@.len() > 0 && !over_threshold(
            docs@.len() as int,
            records as int,
            threshold as int,
            rule,
        ) ==> match r {
            Ok(FileIndexResult::Matched(bitmap, hits)) => hits == docs@.len() && is_bitmap_of(
                bitmap@,
                docs@,
                records as int,
            ),
            Ok(_) => false,
            Err(IndexError::MultipleSegments) => segments > 1,
            Err(IndexError::DocIdOutOfRange(d)) => segments <= 1 && docs@.contains(d) && d >= records,
            Err(IndexError::Unreadable) => false,
        },
{
    if count > 0 || histogram.len() > 0 {
        return Ok(FileIndexResult::Counted(count, histogram));
    }
    if docs.len() == 0 {
        return Ok(FileIndexResult::NoMatch);
    }
    if exceeds_skip_threshold(docs.len(), records, threshold, rule) {
        return Ok(FileIndexResult::Skipped);
    }
    if segments > 1 {
        return Err(IndexError::MultipleSegments);
    }
    match build_bitmap(docs, records as usize) {
        Ok(bitmap) => Ok(FileIndexResult::Matched(bitmap, docs.len())),
        Err(e) => Err(e),
    }
}

/// Entry `i` of a histogram, 0 past its end.
pub open spec fn bucket(h: Seq<u64>, i: int) -> int {
    if 0 <= i < h.len() {
        h[i] as int
    } else {
        0
    }
}

/// Sum of bucket `i` over the first `n` histograms.
pub open spec fn bucket_sum(hs: Seq<Vec<u64>>, n: int, i: int) -> int
    decreases n,
{
    if n <= 0 {
        0
    } else {
        bucket_sum(hs, n - 1, i) + bucket(hs[n - 1]@, i)
    }
}

/// The elementwise sum of per-file histograms, as long as the first one.
pub open spec fn merged_histogram(hs: Seq<Vec<u64>>) -> Seq<int> {
    if hs.len() == 0 {
        Seq::empty()
    } else {
        Seq::new(hs[0]@.len(), |i: int| bucket_sum(hs, hs.len() as int, i))
    }
}

pub open spec fn merge_fits(hs: Seq<Vec<u64>>) -> bool {
    forall|i: int| 0 <= i < merged_histogram(hs).len() ==> #[trigger] merged_histogram(hs)[i] <= u64::MAX
}

proof fn lemma_bucket_sum_mono(hs: Seq<Vec<u64>>, m: int, n: int, i: int)
    requires
        0 <= m <= n <= hs.len(),
    ensures
        0 <= bucket_sum(hs, m, i) <= bucket_sum(hs, n, i),
    decreases n - m,
{
    if m < n {
        lemma_bucket_sum_mono(hs, m, n - 1, i);
    } else {
        lemma_bucket_sum_nonneg(hs, n, i);
    }
}

proof fn lemma_bucket_sum_nonneg(hs: Seq<Vec<u64>>, n: int, i: int)
    ensures
        0 <= bucket_sum(hs, n, i),
    decreases n,
{
    if n > 0 {
        lemma_bucket_sum_nonneg(hs, n - 1, i);
    }
}

/// Adds up the histograms of all files bucket by bucket; `None` when a sum does not fit
/// in a `u64`.
pub fn merge_histograms(histograms: &Vec<Vec<u64>>) -> (r: Option<Vec<u64>>)
    ensures
        r is Some == merge_fits(histograms@),
        r matches Some(v) ==> v@.len() == merged_histogram(histograms@).len() && forall|i: int|
            0 <= i < v@.len() ==> #[trigger] v@[i] as int == merged_histogram(histograms@)[i],
{
    let mut r: Vec<u64> = Vec::new();
    if histograms.len() == 0 {
        return Some(r);
    }
    let len = histograms[0].len();
    let ghost hs = histograms@;
    let mut i: usize = 0;
    while i < len
        invariant
            hs == histograms@,
            hs.len() > 0,
            len == hs[0]@.len(),
            i <= len,
            r@.len() == i,
            forall|j: int| 0 <= j < i ==> #[trigger] r@[j] as int == merged_histogram(hs)[j],
            forall|j: int| 0 <= j < i ==> #[trigger] merged_histogram(hs)[j] <= u64::MAX,
        decreases len - i,
    {
        let mut total: u64 = 0;
        let mut k: usize = 0;
        assert(merged_histogram(hs)[i as int] == bucket_sum(hs, hs.len() as int, i as int));
        while k < histograms.len()
            invariant
                hs == histograms@,
                hs.len() > 0,
                len == hs[0]@.len(),
                k <= hs.len(),
                i < len,
                total as int == bucket_sum(hs, k as int, i as int),
            decreases hs.len() - k,
        {
            let h = &histograms[k];
            if i < h.len() {
                match total.checked_add(h[i]) {
                    Some(t) => {
                        total = t;
                    },
                    None => {
                        proof {
                            assert(hs[k as int] == *h);
                            assert(bucket(hs[k as int]@, i as int) == h@[i as int] as int);
                            assert(bucket_sum(hs, k + 1, i as int) == total as int + h@[i as int] as int);
                            lemma_bucket_sum_mono(hs, k + 1, hs.len() as int, i as int);
                            assert(merged_histogram(hs)[i as int] > u64::MAX);
                        }
                        return None;
                    },
                }
            }
            k = k + 1;
        }
        r.push(total);
        i = i + 1;
    }
    Some(r)
}

/// What the search does with a file after its index was searched.
#[derive(Clone, Debug, PartialEq, Eq)]
pub enum FileAction {
    /// Scan the file and filter it there.
    Keep,
    /// Leave the file out of the scan.
    Drop,
    /// Scan only the rows set in the bitmap.
    Attach(Vec<bool>),
}

/// Totals of the index filter over the files searched so far.
#[derive(Debug)]
pub struct FilterProgress {
    pub total_hits: usize,
    /// Some file could not be decided by its index, so the scan re-applies the filter.
    pub add_filter_back: bool,
    /// The select limit was passed: the files not yet searched are dropped.
    pub no_more_files: bool,
    pub histograms: Vec<Vec<u64>>,
}

impl FilterProgress {
    /// Nothing searched yet; `add_filter_back` starts set when some file has no index.
    pub fn new(add_filter_back: bool) -> (r: FilterProgress)
        ensures
            r.total_hits == 0,
            r.add_filter_back == add_filter_back,
            !r.no_more_files,
            r.histograms@.len() == 0,
    {
        FilterProgress { total_hits: 0, add_filter_back, no_more_files: false, histograms: Vec::new() }
    }

    /// Takes in the index result of one file and says what becomes of the file.
    pub fn record(&mut self, outcome: Result<FileIndexResult, IndexError>) -> (r: FileAction)
        requires
            outcome matches Ok(FileIndexResult::Counted(hits, _)) ==> old(self).total_hits + hits
                <= usize::MAX,
            outcome matches Ok(FileIndexResult::Matched(_, hits)) ==> old(self).total_hits + hits
                <= usize::MAX,
        ensures
            final(self).no_more_files == old(self).no_more_files,
            match outcome {
                Err(_) => {
                    &&& r == FileAction::Keep
                    &&& final(self).add_filter_back
                    &&& final(self).total_hits == old(self).total_hits
                    &&& final(self).histograms@ == old(self).histograms@
                },
                Ok(FileIndexResult::Skipped) => {
                    &&& r == FileAction::Keep
                    &&& final(self).add_filter_back
                    &&& final(self).total_hits == old(self).total_hits
                    &&& final(self).histograms@ == old(self).histograms@
                },
                Ok(FileIndexResult::NoMatch) => {
                    &&& r == FileAction::Drop
                    &&& final(self).add_filter_back == old(self).add_filter_back
                    &&& final(self).total_hits == old(self).total_hits
                    &&& final(self).histograms@ == old(self).histograms@
                },
                Ok(FileIndexResult::Counted(hits, h)) => {
                    &&& r == FileAction::Drop
                    &&& final(self).add_filter_back == old(self).add_filter_back
                    &&& final(self).total_hits == old(self).total_hits + hits
                    &&& final(self).histograms@ == if h@.len() > 0 {
                        old(self).histograms@.push(h)
                    } else {
                        old(self).histograms@
                    }
                },
                Ok(FileIndexResult::Matched(bitmap, hits)) => {
                    &&& r == if hits == 0 {
                        FileAction::Drop
                    } else {
                        FileAction::Attach(bitmap)
                    }
                    &&& final(self).add_filter_back == old(self).add_filter_back
                    &&& final(self).total_hits == old(self).total_hits + hits
                    &&& final(self).histograms@ == old(self).histograms@
                },
            },
    {
        match outcome {
            Err(_) => {
                self.add_filter_back = true;
                FileAction::Keep
            },
            Ok(FileIndexResult::Skipped) => {
                self.add_filter_back = true;
                FileAction::Keep
            },
            Ok(FileIndexResult::NoMatch) => FileAction::Drop,
            Ok(FileIndexResult::Counted(hits, h)) => {
                self.total_hits = self.total_hits + hits;
                if h.len() > 0 {
                    self.histograms.push(h);
                }
                FileAction::Drop
            },
            Ok(FileIndexResult::Matched(bitmap, hits)) => {
                self.total_hits = self.total_hits + hits;
                if hits == 0 {
                    FileAction::Drop
                } else {
                    FileAction::Attach(bitmap)
                }
            },
        }
    }

    /// Closes a round of searches: past a non-zero select limit no more files are searched.
    pub fn end_round(&mut self, limit: usize)
        ensures
            final(self).no_more_files == (old(self).no_more_files || (limit > 0
                && old(self).total_hits > limit)),
            final(self).total_hits == old(self).total_hits,
            final(self).add_filter_back == old(self).add_filter_back,
            final(self).histograms@ == old(self).histograms@,
    {
        if limit > 0 && self.total_hits > limit {
            self.no_more_files = true;
        }
    }
}

/// Each file in a group of its own.
pub open spec fn singletons(gs: Seq<Vec<FileKey>>, files: Seq<FileKey>) -> bool {
    &&& gs.len() == files.len()
    &&& forall|i: int| 0 <= i < gs.len() ==> (#[trigger] gs[i])@ == seq![files[i]]
}

/// Arranges the indexed files for searching, with the hit limit that stops the search.
/// A select with a non-zero limit searches time-ordered groups so that the newest or
/// oldest rows come first; otherwise every file is its own group and nothing stops early.
pub fn dispatch_groups(files: Vec<FileKey>, rule: Option<OptimizeRule>, target_partitions: usize) -> (r: (Vec<Vec<FileKey>>, usize))
    requires
        files_wf(files@),
    ensures
        groups_files(r.0@) == files@.to_multiset(),
        match rule {
            Some(OptimizeRule::SimpleSelect(limit, _)) if limit > 0 => {
                &&& r.1 == limit
                &&& groups_ok(r.0@)
                &&& vstd::math::min(target_partitions as int, files@.len() as int) <= r.0@.len() <= files@.len()
            },
            _ => r.1 == 0 && singletons(r.0@, files@),
        },
{
    if let Some(OptimizeRule::SimpleSelect(limit, _)) = rule {
        if limit > 0 {
            return (group_files_by_time_range(files, target_partitions), limit);
        }
    }
    let ghost orig = files@;
    let mut rest = files;
    let n = rest.len();
    let mut groups: Vec<Vec<FileKey>> = Vec::new();
    proof {
        assert(orig.take(0).to_multiset() =~= Multiset::empty()) by {
            assert(orig.take(0).to_multiset().len() == 0);
        }
    }
    while rest.len() > 0
        invariant
            groups@.len() + rest@.len() == orig.len(),
            orig.len() == n,
            rest@ == orig.subrange(groups@.len() as int, orig.len() as int),
            singletons(groups@, orig.take(groups@.len() as int)),
            groups_files(groups@) == orig.take(groups@.len() as int).to_multiset(),
        decreases rest@.len(),
    {
        let ghost before = groups@;
        let ghost k = groups@.len() as int;
        let f = rest.remove(0);
        assert(f == orig[k]);
        let g = vec![f];
        groups.push(g);
        proof {
            lemma_groups_files_push(before, g);
            assert(orig.take(k + 1) =~= orig.take(k).push(f));
            assert(g@.to_multiset() =~= Multiset::empty().insert(f)) by {
                assert(g@ =~= Seq::<FileKey>::empty().push(f));
            }
            assert(groups_files(groups@) =~= orig.take(k + 1).to_multiset());
            assert forall|i: int| 0 <= i < groups@.len() implies (#[trigger] groups@[i])@ == seq![orig.take(k + 1)[i]] by {
                if i < k {
                    assert(groups@[i] == before[i]);
                }
            }
        }
    }
    proof {
        assert(orig.take(groups@.len() as int) =~= orig);
    }
    (groups, 0)
}

/// The last file of each non-empty group, in group order.
pub open spec fn round_of(gs: Seq<Vec<FileKey>>) -> Seq<FileKey>
    decreases gs.len(),
{
    if gs.len() == 0 {
        Seq::empty()
    } else if gs.last()@.len() > 0 {
        round_of(gs.drop_last()).push(gs.last()@.last())
    } else {
        round_of(gs.drop_last())
    }
}

/// Takes the next file to search from each group: its last one.
pub fn take_round(groups: &mut Vec<Vec<FileKey>>) -> (r: Vec<FileKey>)
    ensures
        r@ == round_of(old(groups)@),
        final(groups)@.len() == old(groups)@.len(),
        forall|i: int| 0 <= i < old(groups)@.len() ==> (#[trigger] final(groups)@[i])@ == if old(groups)@[i]@.len() > 0 {
            old(groups)@[i]@.drop_last()
        } else {
            old(groups)@[i]@
        },
{
    let ghost orig = groups@;
    let mut out: Vec<FileKey> = Vec::new();
    let mut i: usize = 0;
    while i < groups.len()
        invariant
            groups@.len() == orig.len(),
            i <= orig.len(),
            out@ == round_of(orig.take(i as int)),
            forall|j: int| 0 <= j < i ==> (#[trigger] groups@[j])@ == if orig[j]@.len() > 0 {
                orig[j]@.drop_last()
            } else {
                orig[j]@
            },
            forall|j: int| i <= j < orig.len() ==> #[trigger] groups@[j] == orig[j],
        decreases orig.len() - i,
    {
        let ghost before = groups@;
        proof {
            assert(orig.take(i + 1).drop_last() =~= orig.take(i as int));
        }
        if groups[i].len() > 0 {
            let mut g = groups.remove(i);
            let f = g.pop().unwrap();
            groups.insert(i, g);
            out.push(f);
            proof {
                assert forall|j: int| 0 <= j < orig.len() && j != i implies #[trigger] groups@[j] == before[j] by {}
            }
        }
        i = i + 1;
    }
    proof {
        assert(orig.take(i as int) =~= orig);
    }
    out
}

/// The files, in order, that do (`indexed`) or do not have an index.
pub open spec fn by_index(files: Seq<FileKey>, indexed: bool) -> Seq<FileKey>
    decreases files.len(),
{
    if files.len() == 0 {
        Seq::empty()
    } else if (files.last().meta.index_size > 0) == indexed {
        by_index(files.drop_last(), indexed).push(files.last())
    } else {
        by_index(files.drop_last(), indexed)
    }
}

/// Starts the index filter: splits the files into those with an index, which are
/// searched, and those without, which are kept; a file without an index means the
/// filter must be applied again at scan time.
pub fn start_index_filter(files: Vec<FileKey>) -> (r: (Vec<FileKey>, Vec<FileKey>, FilterProgress))
    ensures
        r.0@ == by_index(files@, true),
        r.1@ == by_index(files@, false),
        r.2.add_filter_back == (r.1@.len() > 0),
        r.2.total_hits == 0,
        !r.2.no_more_files,
        r.2.histograms@.len() == 0,
{
    let ghost orig = files@;
    let mut rest = files;
    let n = rest.len();
    let mut indexed: Vec<FileKey> = Vec::new();
    let mut plain: Vec<FileKey> = Vec::new();
    let mut i: usize = 0;
    while rest.len() > 0
        invariant
            i + rest@.len() == orig.len(),
            orig.len() == n,
            rest@ == orig.subrange(i as int, orig.len() as int),
            indexed@ == by_index(orig.take(i as int), true),
            plain@ == by_index(orig.take(i as int), false),
        decreases rest@.len(),
    {
        let f = rest.remove(0);
        proof {
            assert(f == orig[i as int]);
            assert(orig.take(i + 1).drop_last() =~= orig.take(i as int));
        }
        if f.meta.index_size > 0 {
            indexed.push(f);
        } else {
            plain.push(f);
        }
        i = i + 1;
    }
    proof {
        assert(orig.take(i as int) =~= orig);
    }
    let progress = FilterProgress::new(plain.len() > 0);
    (indexed, plain, progress)
}

} // verus!
