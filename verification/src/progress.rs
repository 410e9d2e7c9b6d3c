//! Progress reporting of a running scan.
use vstd::prelude::*;
use std::sync::Arc;

verus! {

/// Receives progress reports of a running scan.
pub trait ProgressCallback: Send + Sync {
    fn emit(&self, phase: &str, processed: u64, total: Option<u64>, message: &str);
}

/// A receiver that drops every report.
pub struct NoopCallback;

impl ProgressCallback for NoopCallback {
    fn emit(&self, _phase: &str, _processed: u64, _total: Option<u64>, _message: &str) {
    }
}

/// What a scan needs besides its options: where progress goes and the
/// cluster size used to estimate allocated sizes. The receiver is usually
/// `dyn ProgressCallback`.
pub struct ScanContext<P: ?Sized> {
    pub progress: Arc<P>,
    pub cluster_size: u64,
}

impl<P: ProgressCallback + ?Sized> ScanContext<P> {
    pub fn new(progress: Arc<P>, cluster_size: u64) -> (r: Self)
        ensures
            r.progress == progress,
            r.cluster_size == cluster_size,
    {
        ScanContext { progress, cluster_size }
    }
}

} // verus!
