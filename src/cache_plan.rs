use vstd::prelude::*;

verus! {

/// Where a file was found when the query started.
#[derive(Clone, Copy, Debug, PartialEq, Eq, Structural)]
pub enum CacheTier {
    Memory,
    Disk,
    Absent,
}

/// Where missing files are fetched to in the background; `Remote` fetches nothing and
/// lets the scan read object storage directly.
#[derive(Clone, Copy, Debug, PartialEq, Eq, Structural)]
pub enum CacheType {
    Memory,
    Disk,
    Remote,
}

/// The cache settings that decide where files are prefetched.
#[derive(Clone, Copy, Debug)]
pub struct CacheConfig {
    pub memory_enabled: bool,
    pub memory_skip_size: i64,
    pub disk_enabled: bool,
    pub disk_skip_size: i64,
    /// Object storage is a local disk, so a disk cache would only copy it.
    pub local_disk_storage: bool,
}

/// Counters of one query, never shared between queries.
#[derive(Clone, Copy, Debug, Default, PartialEq, Eq, Structural)]
pub struct ScanStats {
    pub files: i64,
    pub records: i64,
    pub original_size: i64,
    pub compressed_size: i64,
    pub idx_scan_size: i64,
    pub querier_files: i64,
    pub querier_memory_cached_files: i64,
    pub querier_disk_cached_files: i64,
    pub idx_took: i64,
}

impl ScanStats {
    pub open spec fn is_zero(self) -> bool {
        &&& self.files == 0
        &&& self.records == 0
        &&& self.original_size == 0
        &&& self.compressed_size == 0
        &&& self.idx_scan_size == 0
        &&& self.querier_files == 0
        &&& self.querier_memory_cached_files == 0
        &&& self.querier_disk_cached_files == 0
        &&& self.idx_took == 0
    }

    /// All counters at zero.
    pub fn new() -> (r: ScanStats)
        ensures
            r.is_zero(),
    {
        ScanStats {
            files: 0,
            records: 0,
            original_size: 0,
            compressed_size: 0,
            idx_scan_size: 0,
            querier_files: 0,
            querier_memory_cached_files: 0,
            querier_disk_cached_files: 0,
            idx_took: 0,
        }
    }
}

/// How many probes found a file in tier `t`.
pub open spec fn count_tier(s: Seq<CacheTier>, t: CacheTier) -> nat
    decreases s.len(),
{
    if s.len() == 0 {
        0
    } else {
        count_tier(s.drop_last(), t) + if s.last() == t {
            1nat
        } else {
            0nat
        }
    }
}

pub open spec fn cache_hits(s: Seq<CacheTier>) -> nat {
    count_tier(s, CacheTier::Memory) + count_tier(s, CacheTier::Disk)
}

pub open spec fn cache_misses(s: Seq<CacheTier>) -> nat {
    count_tier(s, CacheTier::Absent)
}

/// Positions of the files that no tier holds.
pub open spec fn absent_positions(s: Seq<CacheTier>) -> Seq<usize>
    decreases s.len(),
{
    if s.len() == 0 {
        Seq::empty()
    } else if s.last() == CacheTier::Absent {
        absent_positions(s.drop_last()).push((s.len() - 1) as usize)
    } else {
        absent_positions(s.drop_last())
    }
}

proof fn lemma_counts_add_up(s: Seq<CacheTier>)
    ensures
        count_tier(s, CacheTier::Memory) + count_tier(s, CacheTier::Disk) + count_tier(
            s,
            CacheTier::Absent,
        ) == s.len(),
    decreases s.len(),
{
    if s.len() > 0 {
        lemma_counts_add_up(s.drop_last());
    }
}

/// Where to prefetch the missing files, given how many of `files_num` are cached and
/// their total compressed size.
pub open spec fn download_tier(files_num: int, cached: int, compressed_size: int, cfg: CacheConfig) -> CacheType {
    if files_num == cached {
        CacheType::Remote
    } else if cfg.memory_enabled && compressed_size < cfg.memory_skip_size {
        CacheType::Memory
    } else if !cfg.local_disk_storage && cfg.disk_enabled && compressed_size < cfg.disk_skip_size {
        CacheType::Disk
    } else {
        CacheType::Remote
    }
}

/// The cache type a query runs with: `Remote` when nothing is prefetched or fewer than
/// half of the files are cached.
pub open spec fn effective_cache_type(files_num: int, cached: int, compressed_size: int, cfg: CacheConfig) -> CacheType {
    let tier = download_tier(files_num, cached, compressed_size, cfg);
    if tier == CacheType::Remote || 2 * cached < files_num {
        CacheType::Remote
    } else {
        tier
    }
}

/// Counts the probes that found a file in a cache tier and those that did not; every
/// probe is one or the other.
pub fn count_cache_hits(probes: &Vec<CacheTier>) -> (r: (u64, u64))
    ensures
        r.0 == cache_hits(probes@),
        r.1 == cache_misses(probes@),
        r.0 + r.1 == probes@.len(),
{
    let mut hits: u64 = 0;
    let mut misses: u64 = 0;
    let mut i: usize = 0;
    while i < probes.len()
        invariant
            i <= probes@.len(),
            hits == cache_hits(probes@.take(i as int)),
            misses == cache_misses(probes@.take(i as int)),
        decreases probes@.len() - i,
    {
        proof {
            assert(probes@.take(i + 1).drop_last() =~= probes@.take(i as int));
            lemma_counts_add_up(probes@.take(i as int));
        }
        match probes[i] {
            CacheTier::Absent => {
                misses = misses + 1;
            },
            _ => {
                hits = hits + 1;
            },
        }
        i = i + 1;
    }
    proof {
        assert(probes@.take(i as int) =~= probes@);
        lemma_counts_add_up(probes@);
    }
    (hits, misses)
}

/// What the cache step decided for one query.
#[derive(Debug)]
pub struct CachePlan {
    pub cache_type: CacheType,
    pub download_tier: CacheType,
    pub cache_hits: u64,
    pub cache_misses: u64,
    /// Positions of the files to fetch into `download_tier` in the background.
    pub to_download: Vec<usize>,
}

/// Counts the probes, updates the cached-file counters of `stats`, and decides where the
/// missing files go. `stats.compressed_size` is the total size of the files.
pub fn plan_cache(probes: &Vec<CacheTier>, cfg: &CacheConfig, stats: &mut ScanStats) -> (r: CachePlan)
    requires
        probes@.len() < 0x1000_0000_0000_0000,
        0 <= old(stats).querier_memory_cached_files < 0x1000_0000_0000_0000,
        0 <= old(stats).querier_disk_cached_files < 0x1000_0000_0000_0000,
    ensures
        r.cache_hits == cache_hits(probes@),
        r.cache_misses == cache_misses(probes@),
        r.cache_hits + r.cache_misses == probes@.len(),
        final(stats).querier_memory_cached_files == old(stats).querier_memory_cached_files
            + count_tier(probes@, CacheTier::Memory),
        final(stats).querier_disk_cached_files == old(stats).querier_disk_cached_files
            + count_tier(probes@, CacheTier::Disk),
        *final(stats) == (ScanStats {
            querier_memory_cached_files: final(stats).querier_memory_cached_files,
            querier_disk_cached_files: final(stats).querier_disk_cached_files,
            ..*old(stats)
        }),
        r.download_tier == download_tier(
            probes@.len() as int,
            final(stats).querier_memory_cached_files + final(stats).querier_disk_cached_files,
            old(stats).compressed_size as int,
            *cfg,
        ),
        r.cache_type == effective_cache_type(
            probes@.len() as int,
            final(stats).querier_memory_cached_files + final(stats).querier_disk_cached_files,
            old(stats).compressed_size as int,
            *cfg,
        ),
        r.download_tier == CacheType::Remote ==> r.to_download@.len() == 0,
        r.download_tier != CacheType::Remote ==> r.to_download@ == absent_positions(probes@),
{
    let mut hits: u64 = 0;
    let mut misses: u64 = 0;
    let mut absent: Vec<usize> = Vec::new();
    let mut i: usize = 0;
    while i < probes.len()
        invariant
            i <= probes@.len() < 0x1000_0000_0000_0000,
            0 <= old(stats).querier_memory_cached_files < 0x1000_0000_0000_0000,
            0 <= old(stats).querier_disk_cached_files < 0x1000_0000_0000_0000,
            stats.querier_memory_cached_files == old(stats).querier_memory_cached_files
                + count_tier(probes@.take(i as int), CacheTier::Memory),
            stats.querier_disk_cached_files == old(stats).querier_disk_cached_files
                + count_tier(probes@.take(i as int), CacheTier::Disk),
            *stats == (ScanStats {
                querier_memory_cached_files: stats.querier_memory_cached_files,
                querier_disk_cached_files: stats.querier_disk_cached_files,
                ..*old(stats)
            }),
            hits == cache_hits(probes@.take(i as int)),
            misses == cache_misses(probes@.take(i as int)),
            absent@ == absent_positions(probes@.take(i as int)),
        decreases probes@.len() - i,
    {
        proof {
            assert(probes@.take(i + 1).drop_last() =~= probes@.take(i as int));
            lemma_counts_add_up(probes@.take(i as int));
        }
        match probes[i] {
            CacheTier::Memory => {
                stats.querier_memory_cached_files = stats.querier_memory_cached_files + 1;
                hits = hits + 1;
            },
            CacheTier::Disk => {
                stats.querier_disk_cached_files = stats.querier_disk_cached_files + 1;
                hits = hits + 1;
            },
            CacheTier::Absent => {
                misses = misses + 1;
                absent.push(i);
            },
        }
        i = i + 1;
    }
    proof {
        assert(probes@.take(i as int) =~= probes@);
        lemma_counts_add_up(probes@);
        assert(count_tier(probes@, CacheTier::Memory) <= probes@.len());
        assert(count_tier(probes@, CacheTier::Disk) <= probes@.len());
    }
    let files_num = probes.len() as i64;
    let cached = stats.querier_memory_cached_files + stats.querier_disk_cached_files;
    let tier = if files_num == cached {
        CacheType::Remote
    } else if cfg.memory_enabled && stats.compressed_size < cfg.memory_skip_size {
        CacheType::Memory
    } else if !cfg.local_disk_storage && cfg.disk_enabled && stats.compressed_size
        < cfg.disk_skip_size {
        CacheType::Disk
    } else {
        CacheType::Remote
    };
    let cache_type = if tier == CacheType::Remote || cached < files_num - cached {
        CacheType::Remote
    } else {
        tier
    };
    let to_download = if tier == CacheType::Remote {
        Vec::new()
    } else {
        absent
    };
    CachePlan { cache_type, download_tier: tier, cache_hits: hits, cache_misses: misses, to_download }
}

/// Number of partitions a scan uses: fewer threads when reads go to object storage.
pub fn target_partitions(cache_type: CacheType, query_thread_num: usize, cpu_num: usize) -> (r: usize)
    ensures
        r == if cache_type == CacheType::Remote {
            query_thread_num
        } else {
            cpu_num
        },
{
    if cache_type == CacheType::Remote {
        query_thread_num
    } else {
        cpu_num
    }
}

} // verus!
