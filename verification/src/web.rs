//! Local web UI (`dupscanner serve`).
//!
//! The page is to be served on 127.0.0.1 only. Every endpoint that changes
//! or reads a file is to check that the path lies inside the scanned
//! directory and belongs to a current duplicate group; deletions go through
//! `deletion::plan_deletions`, so that no group ever loses its last copy.

use vstd::prelude::*;
use crate::deletion::DeleteMethod;
use crate::scanner::ScanConfig;

verus! {

#[derive(Debug, Clone)]
pub struct ServeOptions {
    pub config: ScanConfig,
    /// Port to listen on; 0 picks a free port.
    pub port: u16,
    pub open_browser: bool,
    pub delete_method: DeleteMethod,
    /// Where to record the finished scan. `None` disables persistence.
    pub db_path: Option<String>,
    /// Serve a previously recorded scan instead of scanning.
    pub scan_id: Option<i64>,
}

/// No web UI is built in: every request to serve one is refused.
pub fn serve(_opts: ServeOptions) -> (r: Result<(), String>)
    ensures
        r matches Err(e) && e@ == "the web UI is not available in this build yet"@,
{
    Err("the web UI is not available in this build yet".to_owned())
}

} // verus!
