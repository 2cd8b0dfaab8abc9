//! The display settings, as configured.
use vstd::prelude::*;
use crate::layers::Context;
use crate::viewport::MAX_RETENTION_NS;

verus! {

/// How many warnings the backlog keeps, how long (in nanoseconds) the
/// console shows after a new warning, and how long data is kept.
#[derive(Debug, Clone, Copy)]
pub struct Options {
    pub warning_backlog_size: usize,
    pub warning_display_ns: u64,
    pub data_backlog_ns: u64,
}

impl Options {
    /// The shared context of the layers under these settings; none where
    /// the retention window is longer than the viewport can handle.
    pub fn context(&self) -> (r: Option<Context>)
        ensures
            self.data_backlog_ns > MAX_RETENTION_NS ==> r is None,
            self.data_backlog_ns <= MAX_RETENTION_NS ==> (r matches Some(c) && c.wf()
                && c.retention_ns == self.data_backlog_ns && c.warning_backlog_size
                == self.warning_backlog_size && c.warning_display_ns == self.warning_display_ns
                && !c.quit && c.warnings@.len() == 0 && c.cache.series_view().len() == 0),
    {
        if self.data_backlog_ns > MAX_RETENTION_NS {
            None
        } else {
            Some(Context::new(self.data_backlog_ns, self.warning_backlog_size, self.warning_display_ns))
        }
    }
}

} // verus!
