//! Engine configuration.
use crate::error::OblivionError;
use std::path::PathBuf;
use vstd::prelude::*;

verus! {

/// Default flush threshold: 4 MiB.
pub const DEFAULT_MEMTABLE_MAX_SIZE: usize = 4194304;

/// Relies on `PathBuf::from` for a path from text; the path is only carried.
#[verifier::external_body]
fn path_from(s: &str) -> PathBuf {
    PathBuf::from(s)
}

/// Tunable parameters of the engine.
#[derive(Debug, Clone)]
pub struct Config {
    /// Directory of the log and the tables.
    pub data_dir: PathBuf,
    /// MemTable size, in bytes, at which it is flushed.
    pub memtable_max_size: usize,
    /// Whether each log append waits for the disk.
    pub sync_writes: bool,
}

impl Default for Config {
    fn default() -> (r: Config)
        ensures
            r.memtable_max_size == DEFAULT_MEMTABLE_MAX_SIZE,
            r.sync_writes,
    {
        Config {
            data_dir: path_from("./data"),
            memtable_max_size: DEFAULT_MEMTABLE_MAX_SIZE,
            sync_writes: true,
        }
    }
}

impl Config {
    /// Defaults, with data under `data_dir`.
    pub fn new(data_dir: PathBuf) -> (r: Config)
        ensures
            r.data_dir == data_dir,
            r.memtable_max_size == DEFAULT_MEMTABLE_MAX_SIZE,
            r.sync_writes,
    {
        Config { data_dir, memtable_max_size: DEFAULT_MEMTABLE_MAX_SIZE, sync_writes: true }
    }

    /// The same configuration with another flush threshold.
    pub fn with_memtable_max_size(self, size: usize) -> (r: Config)
        ensures
            r.data_dir == self.data_dir,
            r.memtable_max_size == size,
            r.sync_writes == self.sync_writes,
    {
        Config { memtable_max_size: size, ..self }
    }

    /// Refuses a flush threshold of zero.
    pub fn validate(&self) -> (r: Result<(), OblivionError>)
        ensures
            r is Ok == (self.memtable_max_size > 0),
            r matches Err(e) ==> e is Config,
    {
        if self.memtable_max_size == 0 {
            Err(OblivionError::Config("memtable_max_size must be positive".to_owned()))
        } else {
            Ok(())
        }
    }
}

} // verus!
