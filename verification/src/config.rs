//! Tree configuration: the tuning knobs a tree is opened with, with the
//! builder methods validating them.

use vstd::prelude::*;

verus! {

/// Which compaction strategy the tree runs. Compaction itself is an
/// external collaborator, consumed only at its interface; the choice is
/// carried here as configuration.
#[derive(Clone, Copy, PartialEq, Eq, Structural, Debug)]
pub enum CompactionChoice {
    /// Size-tiered compaction.
    SizeTiered,
}

/// Tree configuration.
pub struct Config {
    /// Folder path, as the embedding program understands it.
    pub path: Vec<u8>,
    /// Block size of data and index blocks; at least 1 KiB.
    pub block_size: u32,
    /// Block cache size in blocks.
    pub block_cache_size: u32,
    /// Maximum memtable size in bytes.
    pub max_memtable_size: u32,
    /// Number of levels of the tree; at least one.
    pub levels: u8,
    /// Maximum number of concurrent flush threads; at least one.
    pub flush_threads: u8,
    /// Compaction strategy to use.
    pub compaction_strategy: CompactionChoice,
}

impl Config {
    /// The configured values lie in their documented ranges.
    pub open spec fn wf(&self) -> bool {
        &&& self.block_size >= 1024
        &&& self.levels > 0
        &&& self.flush_threads > 0
    }

    /// Initializes a new config for the given folder, with the defaults:
    /// 4 KiB blocks, 1024 cached blocks, 64 MiB memtables, 7 levels, 4
    /// flush threads, size-tiered compaction.
    pub fn new(path: Vec<u8>) -> (r: Config)
        ensures
            r.wf(),
            r.path@ == path@,
            r.block_size == 4096,
            r.block_cache_size == 1024,
            r.max_memtable_size == 64 * 1024 * 1024,
            r.levels == 7,
            r.flush_threads == 4,
            r.compaction_strategy == CompactionChoice::SizeTiered,
    {
        Config {
            path,
            block_size: 4096,
            block_cache_size: 1024,
            max_memtable_size: 64 * 1024 * 1024,
            levels: 7,
            flush_threads: 4,
            compaction_strategy: CompactionChoice::SizeTiered,
        }
    }

    /// Sets the maximum number of concurrent flush threads; zero is
    /// rejected.
    pub fn flush_threads(self, count: u8) -> (r: Config)
        requires
            count > 0,
        ensures
            r == (Config { flush_threads: count, ..self }),
    {
        let mut c = self;
        c.flush_threads = count;
        c
    }

    /// Sets the number of levels of the tree; zero is rejected.
    pub fn level_count(self, count: u8) -> (r: Config)
        requires
            count > 0,
        ensures
            r == (Config { levels: count, ..self }),
    {
        let mut c = self;
        c.levels = count;
        c
    }

    /// Sets the maximum memtable size in bytes.
    pub fn max_memtable_size(self, bytes: u32) -> (r: Config)
        ensures
            r == (Config { max_memtable_size: bytes, ..self }),
    {
        let mut c = self;
        c.max_memtable_size = bytes;
        c
    }

    /// Sets the block size; anything below 1 KiB is rejected.
    pub fn block_size(self, block_size: u32) -> (r: Config)
        requires
            block_size >= 1024,
        ensures
            r == (Config { block_size: block_size, ..self }),
    {
        let mut c = self;
        c.block_size = block_size;
        c
    }

    /// Sets the block cache size in blocks.
    pub fn block_cache_size(self, block_cache_size: u32) -> (r: Config)
        ensures
            r == (Config { block_cache_size: block_cache_size, ..self }),
    {
        let mut c = self;
        c.block_cache_size = block_cache_size;
        c
    }

    /// Sets the compaction strategy to use.
    pub fn compaction_strategy(self, strategy: CompactionChoice) -> (r: Config)
        ensures
            r == (Config { compaction_strategy: strategy, ..self }),
    {
        let mut c = self;
        c.compaction_strategy = strategy;
        c
    }
}

} // verus!
