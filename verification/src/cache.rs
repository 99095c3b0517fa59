//! The on-disk caches of terrain tiles and marker icons: their size, and
//! which files to evict, oldest first, to bring a cache within its limit.
//! The caller walks the cache directory, hands in what it found, and
//! removes the files this module picks.
use crate::sorting::{is_stable_order, stable_order};
use vstd::prelude::*;

verus! {

/// The name of the temporary file a cache entry is first written to, in
/// the same directory: `.`, the entry's file name, `.`, a random suffix
/// and `.tmp`.
pub fn temporary_file_name(file_name: &str, suffix: &str) -> (r: String)
    ensures
        r@ == "."@ + file_name@ + "."@ + suffix@ + ".tmp"@,
{
    let mut name = String::new();
    name.append(".");
    name.append(file_name);
    name.append(".");
    name.append(suffix);
    name.append(".tmp");
    name
}

/// Size limit of the terrain cache, in bytes.
pub const TERRAIN_CACHE_LIMIT_BYTES: u64 = 536870912;

/// Size limit of the marker icon cache, in bytes.
pub const MARKER_CACHE_LIMIT_BYTES: u64 = 67108864;

/// Most files looked at in one cache.
pub const MAX_CACHE_FILES: usize = 100000;

/// Deepest directory looked into below the cache root.
pub const MAX_CACHE_DEPTH: usize = 16;

/// The size of a cache: its bytes (saturating at `u64::MAX`) and files.
#[derive(Debug, Clone, Copy, PartialEq, Eq, Structural)]
pub struct CacheStats {
    pub bytes: u64,
    pub files: usize,
}

impl Default for CacheStats {
    fn default() -> (r: CacheStats)
        ensures
            r == (CacheStats { bytes: 0, files: 0 }),
    {
        CacheStats { bytes: 0, files: 0 }
    }
}

/// `u64::saturating_add`.
pub open spec fn saturating_add_u64(a: int, b: int) -> int {
    if a + b > u64::MAX {
        u64::MAX as int
    } else {
        a + b
    }
}

/// The sizes added up from the first, saturating at `u64::MAX`.
pub open spec fn saturating_total(sizes: Seq<u64>) -> int
    decreases sizes.len(),
{
    if sizes.len() == 0 {
        0
    } else {
        saturating_add_u64(saturating_total(sizes.drop_last()), sizes.last() as int)
    }
}

fn total_bytes(sizes: &Vec<u64>) -> (r: u64)
    ensures
        r == saturating_total(sizes@),
{
    let mut total: u64 = 0;
    let mut i: usize = 0;
    while i < sizes.len()
        invariant
            i <= sizes@.len(),
            total == saturating_total(sizes@.take(i as int)),
        decreases sizes@.len() - i,
    {
        proof {
            assert(sizes@.take(i + 1).drop_last() =~= sizes@.take(i as int));
        }
        let size = sizes[i];
        total = if size > u64::MAX - total {
            u64::MAX
        } else {
            total + size
        };
        i = i + 1;
    }
    assert(sizes@.take(sizes@.len() as int) =~= sizes@);
    total
}

/// `stats`: the size of a cache whose files have the given sizes.
pub fn stats(file_sizes: &Vec<u64>) -> (r: CacheStats)
    ensures
        r.bytes == saturating_total(file_sizes@),
        r.files == file_sizes@.len(),
{
    CacheStats { bytes: total_bytes(file_sizes), files: file_sizes.len() }
}

/// A file found in a cache.
#[derive(Debug, Clone, Copy, PartialEq, Eq, Structural)]
pub struct CacheFile {
    pub bytes: u64,
    /// Modification time, in nanoseconds from the Unix epoch (negative
    /// before it; a file without one counts as modified at the epoch).
    pub modified: i128,
    /// The file just written, which is never evicted.
    pub protected: bool,
}

/// The sizes of cache files.
pub open spec fn file_sizes(files: Seq<CacheFile>) -> Seq<u64> {
    files.map_values(|f: CacheFile| f.bytes)
}

/// The modification times of cache files, as sort keys.
pub open spec fn modification_keys(files: Seq<CacheFile>) -> Seq<i128> {
    files.map_values(|f: CacheFile| f.modified)
}

/// An eviction in progress: the running total and the limit.
#[derive(Debug, Clone, Copy, PartialEq, Eq, Structural)]
pub struct Eviction {
    pub total: u64,
    pub limit: u64,
}

/// What to do with the next file, oldest first.
#[derive(Debug, Clone, Copy, PartialEq, Eq, Structural)]
pub enum EvictionStep {
    /// The cache is within its limit: stop.
    Stop,
    /// Keep this file and go on.
    Skip,
    /// Remove this file, then report it with [`Eviction::removed`].
    Remove,
}

impl Eviction {
    /// `enforce_limit`, at the start: nothing to do under a zero limit or
    /// when the cache is within it; otherwise the eviction, with the files'
    /// indices oldest first (files with the same time in the order found).
    pub fn start(files: &Vec<CacheFile>, limit: u64) -> (r: Option<(Eviction, Vec<usize>)>)
        ensures
            match r {
                None => limit == 0 || saturating_total(file_sizes(files@)) <= limit,
                Some((eviction, order)) => limit != 0 && saturating_total(file_sizes(files@))
                    > limit && eviction.total == saturating_total(file_sizes(files@))
                    && eviction.limit == limit && is_stable_order(
                    modification_keys(files@),
                    order@,
                ),
            },
    {
        if limit == 0 {
            return None;
        }
        let mut sizes: Vec<u64> = Vec::new();
        let mut keys: Vec<i128> = Vec::new();
        let mut i: usize = 0;
        while i < files.len()
            invariant
                i <= files@.len(),
                sizes@ == file_sizes(files@).take(i as int),
                keys@ == modification_keys(files@).take(i as int),
            decreases files@.len() - i,
        {
            sizes.push(files[i].bytes);
            keys.push(files[i].modified);
            proof {
                assert(sizes@ =~= file_sizes(files@).take(i + 1));
                assert(keys@ =~= modification_keys(files@).take(i + 1));
            }
            i = i + 1;
        }
        assert(sizes@ =~= file_sizes(files@));
        assert(keys@ =~= modification_keys(files@));
        let total = total_bytes(&sizes);
        if total <= limit {
            return None;
        }
        Some((Eviction { total, limit }, stable_order(&keys)))
    }

    /// `enforce_limit`, for the next file: stop once the total is within
    /// the limit; keep a protected file; remove any other.
    pub fn next(&self, file: &CacheFile) -> (r: EvictionStep)
        ensures
            r == (if self.total <= self.limit {
                EvictionStep::Stop
            } else if file.protected {
                EvictionStep::Skip
            } else {
                EvictionStep::Remove
            }),
    {
        if self.total <= self.limit {
            EvictionStep::Stop
        } else if file.protected {
            EvictionStep::Skip
        } else {
            EvictionStep::Remove
        }
    }

    /// A file of `bytes` bytes was removed: the total drops by its size,
    /// not below zero.
    pub fn removed(&mut self, bytes: u64)
        ensures
            final(self).limit == old(self).limit,
            final(self).total == (if old(self).total >= bytes {
                old(self).total - bytes
            } else {
                0
            }),
    {
        self.total = if self.total >= bytes {
            self.total - bytes
        } else {
            0
        };
    }
}

} // verus!
