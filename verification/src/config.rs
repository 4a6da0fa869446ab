//! Recognized configuration options of the store.

use vstd::prelude::*;

verus! {

/// Configuration of a store.
///
/// `data_dir` names the directory that holds the snapshot files; when it
/// is absent, `save` and `restore` are no-ops. The two trigger options
/// gate `save`: a snapshot is written only when at least
/// `save_triggered_by_threshold` writes have happened since the last one
/// *and* at least `save_triggered_after_ms` milliseconds have passed.
pub struct Config {
    /// Directory for the snapshot files; `None` switches persistence off.
    pub data_dir: Option<String>,
    /// Minimum wall-clock interval between snapshots, in milliseconds.
    pub save_triggered_after_ms: i64,
    /// Minimum number of writes since the last snapshot.
    pub save_triggered_by_threshold: u64,
    /// When false, the access gate grants unconditionally.
    pub enable_security_api_keys: bool,
}

impl Default for Config {
    /// No data directory, a 30 second save interval, an 8 write
    /// threshold, and the access gate switched on.
    fn default() -> (r: Self)
        ensures
            r.data_dir is None,
            r.save_triggered_after_ms == 30_000,
            r.save_triggered_by_threshold == 8,
            r.enable_security_api_keys == true,
    {
        Config {
            data_dir: None,
            save_triggered_after_ms: 30_000,
            save_triggered_by_threshold: 8,
            enable_security_api_keys: true,
        }
    }
}

} // verus!
