use vstd::prelude::*;

use crate::cache_plan::ScanStats;
use crate::file_group::FileKey;

verus! {

/// The time window `[start_dt, end_dt)` in which a schema version is valid; the latest
/// version ends at `i64::MAX`.
#[derive(Clone, Copy, Debug, PartialEq, Eq, Structural)]
pub struct VersionWindow {
    pub start_dt: i64,
    pub end_dt: i64,
}

pub open spec fn window_contains(w: VersionWindow, t: i64) -> bool {
    w.start_dt <= t < w.end_dt
}

/// The first version from `i` on whose window holds `t`; the latest when none does.
pub open spec fn version_from(windows: Seq<VersionWindow>, t: i64, i: int) -> int
    decreases windows.len() - i,
{
    if i < 0 || i >= windows.len() {
        windows.len() - 1
    } else if window_contains(windows[i], t) {
        i
    } else {
        version_from(windows, t, i + 1)
    }
}

/// The version whose window holds `t`, the first such one; the latest when none does.
pub open spec fn version_of(windows: Seq<VersionWindow>, t: i64) -> int {
    version_from(windows, t, 0)
}

/// Finds the schema version of a file that starts at `min_ts`. Never fails: a file that
/// no window holds gets the latest version.
pub fn schema_version_for(windows: &Vec<VersionWindow>, min_ts: i64) -> (r: usize)
    requires
        windows@.len() > 0,
    ensures
        r < windows@.len(),
        r == version_of(windows@, min_ts),
{
    let mut i: usize = 0;
    while i < windows.len()
        invariant
            i <= windows@.len(),
            version_from(windows@, min_ts, i as int) == version_of(windows@, min_ts),
        decreases windows@.len() - i,
    {
        if windows[i].start_dt <= min_ts && min_ts < windows[i].end_dt {
            return i;
        }
        i = i + 1;
    }
    windows.len() - 1
}

/// The files, in order, whose schema version is `v`.
pub open spec fn files_of_version(files: Seq<FileKey>, windows: Seq<VersionWindow>, v: int) -> Seq<FileKey>
    decreases files.len(),
{
    if files.len() == 0 {
        Seq::empty()
    } else if version_of(windows, files.last().meta.min_ts) == v {
        files_of_version(files.drop_last(), windows, v).push(files.last())
    } else {
        files_of_version(files.drop_last(), windows, v)
    }
}

/// Splits the files by schema version: entry `v` holds the files of version `v`, in the
/// order they came.
pub fn group_by_schema_version(files: Vec<FileKey>, windows: &Vec<VersionWindow>) -> (r: Vec<Vec<FileKey>>)
    requires
        windows@.len() > 0,
    ensures
        r@.len() == windows@.len(),
        forall|v: int| 0 <= v < r@.len() ==> #[trigger] r@[v]@ == files_of_version(files@, windows@, v),
{
    let mut groups: Vec<Vec<FileKey>> = Vec::new();
    let mut k: usize = 0;
    while k < windows.len()
        invariant
            k <= windows@.len(),
            groups@.len() == k,
            forall|v: int| 0 <= v < k ==> (#[trigger] groups@[v])@.len() == 0,
        decreases windows@.len() - k,
    {
        groups.push(Vec::new());
        k = k + 1;
    }
    proof {
        assert forall|v: int| 0 <= v < groups@.len() implies #[trigger] groups@[v]@ == files_of_version(
            files@.take(0),
            windows@,
            v,
        ) by {
            assert(groups@[v]@ =~= Seq::<FileKey>::empty());
        }
    }
    let ghost orig = files@;
    let mut rest = files;
    let n = rest.len();
    let mut i: usize = 0;
    while rest.len() > 0
        invariant
            i + rest@.len() == orig.len(),
            orig.len() == n,
            rest@ == orig.subrange(i as int, orig.len() as int),
            groups@.len() == windows@.len(),
            windows@.len() > 0,
            forall|v: int| 0 <= v < groups@.len() ==> #[trigger] groups@[v]@ == files_of_version(
                orig.take(i as int),
                windows@,
                v,
            ),
        decreases rest@.len(),
    {
        let f = rest.remove(0);
        assert(f == orig[i as int]);
        let v = schema_version_for(windows, f.meta.min_ts);
        let ghost before = groups@;
        let mut g = groups.remove(v);
        g.push(f);
        groups.insert(v, g);
        proof {
            assert(orig.take(i + 1).drop_last() =~= orig.take(i as int));
            assert forall|w: int| 0 <= w < groups@.len() implies #[trigger] groups@[w]@ == files_of_version(
                orig.take(i + 1),
                windows@,
                w,
            ) by {
                if w != v {
                    assert(groups@[w] == before[w]);
                }
            }
        }
        i = i + 1;
    }
    proof {
        assert(orig.take(i as int) =~= orig);
    }
    groups
}

/// A per-file statistic that the scan counters add up.
pub enum FileStat {
    Records,
    OriginalSize,
    CompressedSize,
    IndexSize,
}

pub open spec fn stat_of(f: FileKey, k: FileStat) -> i64 {
    match k {
        FileStat::Records => f.meta.records,
        FileStat::OriginalSize => f.meta.original_size,
        FileStat::CompressedSize => f.meta.compressed_size,
        FileStat::IndexSize => f.meta.index_size,
    }
}

/// Sum of a per-file statistic over a file list.
pub open spec fn sum_of(files: Seq<FileKey>, k: FileStat) -> int
    decreases files.len(),
{
    if files.len() == 0 {
        0
    } else {
        sum_of(files.drop_last(), k) + stat_of(files.last(), k) as int
    }
}

/// Every running total of a statistic, file by file, fits in an `i64`.
pub open spec fn sums_fit(files: Seq<FileKey>, k: FileStat) -> bool {
    forall|i: int|
        0 <= i <= files.len() ==> i64::MIN <= #[trigger] sum_of(files.take(i), k) <= i64::MAX
}

/// The counters can add up the files without overflow.
pub open spec fn totals_fit(files: Seq<FileKey>) -> bool {
    &&& files.len() <= i64::MAX
    &&& sums_fit(files, FileStat::Records)
    &&& sums_fit(files, FileStat::OriginalSize)
    &&& sums_fit(files, FileStat::CompressedSize)
    &&& sums_fit(files, FileStat::IndexSize)
}

/// Counts the files and sums their statistics into fresh counters.
pub fn accumulate_scan_stats(files: &Vec<FileKey>) -> (r: ScanStats)
    requires
        totals_fit(files@),
    ensures
        r.files == files@.len(),
        r.records == sum_of(files@, FileStat::Records),
        r.original_size == sum_of(files@, FileStat::OriginalSize),
        r.compressed_size == sum_of(files@, FileStat::CompressedSize),
        r.idx_scan_size == sum_of(files@, FileStat::IndexSize),
        r.querier_files == 0,
        r.querier_memory_cached_files == 0,
        r.querier_disk_cached_files == 0,
        r.idx_took == 0,
{
    let mut stats = ScanStats::new();
    let mut i: usize = 0;
    while i < files.len()
        invariant
            i <= files@.len(),
            totals_fit(files@),
            stats.files == i,
            stats.records == sum_of(files@.take(i as int), FileStat::Records),
            stats.original_size == sum_of(files@.take(i as int), FileStat::OriginalSize),
            stats.compressed_size == sum_of(files@.take(i as int), FileStat::CompressedSize),
            stats.idx_scan_size == sum_of(files@.take(i as int), FileStat::IndexSize),
            stats.querier_files == 0,
            stats.querier_memory_cached_files == 0,
            stats.querier_disk_cached_files == 0,
            stats.idx_took == 0,
        decreases files@.len() - i,
    {
        proof {
            assert(files@.take(i + 1).drop_last() =~= files@.take(i as int));
            assert(files@.take(i + 1).last() == files@[i as int]);
            assert(i64::MIN <= sum_of(files@.take(i + 1), FileStat::Records) <= i64::MAX);
            assert(i64::MIN <= sum_of(files@.take(i + 1), FileStat::OriginalSize) <= i64::MAX);
            assert(i64::MIN <= sum_of(files@.take(i + 1), FileStat::CompressedSize) <= i64::MAX);
            assert(i64::MIN <= sum_of(files@.take(i + 1), FileStat::IndexSize) <= i64::MAX);
        }
        let f = &files[i];
        stats.files = stats.files + 1;
        stats.records = stats.records + f.meta.records;
        stats.original_size = stats.original_size + f.meta.original_size;
        stats.compressed_size = stats.compressed_size + f.meta.compressed_size;
        stats.idx_scan_size = stats.idx_scan_size + f.meta.index_size;
        i = i + 1;
    }
    proof {
        assert(files@.take(i as int) =~= files@);
    }
    stats
}

/// Why a storage search could not be planned.
#[derive(Debug, PartialEq, Eq)]
pub enum SearchError {
    /// The schema versions of the stream could not be loaded.
    SearchStreamNotFound(String),
}

/// The files of one storage search split by schema version, with the scan counters.
#[derive(Debug)]
pub struct ScanPlan {
    /// Entry `v` holds the files read with schema version `v`; empty entries make no table.
    pub groups: Vec<Vec<FileKey>>,
    pub stats: ScanStats,
}

/// Plans the scan of `files` given the stream's schema versions (`None` when they could
/// not be loaded).
pub fn plan_scan(stream_name: &str, versions: Option<Vec<VersionWindow>>, files: Vec<FileKey>) -> (r:
    Result<ScanPlan, SearchError>)
    requires
        totals_fit(files@),
    ensures
        versions.is_none() ==> (r matches Err(SearchError::SearchStreamNotFound(name)) && name@
            == stream_name@),
        versions.is_some() ==> r.is_ok(),
        r matches Ok(plan) ==> {
            let windows = versions.unwrap()@;
            if windows.len() == 0 || files@.len() == 0 {
                &&& plan.groups@.len() == 0
                &&& plan.stats.is_zero()
            } else {
                &&& plan.groups@.len() == windows.len()
                &&& forall|v: int|
                    0 <= v < windows.len() ==> #[trigger] plan.groups@[v]@ == files_of_version(
                        files@,
                        windows,
                        v,
                    )
                &&& plan.stats.files == files@.len()
                &&& plan.stats.records == sum_of(files@, FileStat::Records)
                &&& plan.stats.original_size == sum_of(files@, FileStat::OriginalSize)
                &&& plan.stats.compressed_size == sum_of(files@, FileStat::CompressedSize)
                &&& plan.stats.idx_scan_size == sum_of(files@, FileStat::IndexSize)
                &&& plan.stats.querier_files == files@.len()
                &&& plan.stats.querier_memory_cached_files == 0
                &&& plan.stats.querier_disk_cached_files == 0
                &&& plan.stats.idx_took == 0
            }
        },
{
    let windows = match versions {
        Some(w) => w,
        None => {
            return Err(SearchError::SearchStreamNotFound(stream_name.to_owned()));
        },
    };
    if windows.len() == 0 || files.len() == 0 {
        return Ok(ScanPlan { groups: Vec::new(), stats: ScanStats::new() });
    }
    let mut stats = accumulate_scan_stats(&files);
    stats.querier_files = stats.files;
    let groups = group_by_schema_version(files, &windows);
    Ok(ScanPlan { groups, stats })
}

/// The filter that the scan applies again: the index condition and its fields stay only
/// when the index filter could not settle every file.
pub fn residual_filter<C>(add_filter_back: bool, condition: Option<C>, fields: Vec<String>) -> (r: (Option<C>, Vec<String>))
    ensures
        add_filter_back ==> r.0 == condition && r.1 == fields,
        !add_filter_back ==> r.0 is None && r.1@.len() == 0,
{
    if add_filter_back {
        (condition, fields)
    } else {
        (None, Vec::new())
    }
}

} // verus!
