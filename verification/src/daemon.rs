//! Daemon configuration: where the socket and PID files live under the
//! store directory, and how often the writer wakes to flush.

use vstd::prelude::*;

verus! {

/// How often the daemon's main loop wakes for a flush, in milliseconds.
pub const DEFAULT_FLUSH_INTERVAL_MS: u64 = 100;

/// Where a daemon for one store directory keeps its process-wide state.
#[derive(Debug)]
pub struct DaemonConfig {
    /// The store directory, holding the `.engram` data directory.
    pub root: String,
    /// The flush interval for pending writes, in milliseconds.
    pub flush_interval_ms: u64,
}

impl Clone for DaemonConfig {
    fn clone(&self) -> (r: DaemonConfig)
        ensures
            r.root@ == self.root@,
            r.flush_interval_ms == self.flush_interval_ms,
    {
        DaemonConfig { root: self.root.clone(), flush_interval_ms: self.flush_interval_ms }
    }
}

impl DaemonConfig {
    /// A configuration with the default flush interval.
    pub fn new(root: &str) -> (r: DaemonConfig)
        ensures
            r.root@ == root@,
            r.flush_interval_ms == DEFAULT_FLUSH_INTERVAL_MS,
    {
        DaemonConfig { root: root.to_owned(), flush_interval_ms: DEFAULT_FLUSH_INTERVAL_MS }
    }

    /// The socket path: `<root>/.engram/daemon.sock`.
    pub fn socket_path(&self) -> (r: String)
        ensures
            r@ == self.root@ + "/.engram/daemon.sock"@,
    {
        let mut s = self.root.clone();
        s.append("/.engram/daemon.sock");
        s
    }

    /// The PID file path: `<root>/.engram/daemon.pid`.
    pub fn pid_path(&self) -> (r: String)
        ensures
            r@ == self.root@ + "/.engram/daemon.pid"@,
    {
        let mut s = self.root.clone();
        s.append("/.engram/daemon.pid");
        s
    }
}

} // verus!
