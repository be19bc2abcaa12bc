//! The records that a crawl produces.

use vstd::prelude::*;

verus! {

/// What was fetched from one URL.
pub struct PageInfo {
    pub url: String,
    pub status_code: u16,
    pub content_type: String,
    pub content_length: Option<usize>,
    pub title: Option<String>,
    /// Canonical URLs found on the page, in the order found, without repeats.
    pub links: Vec<String>,
    /// The body as received, kept for the saver.
    pub content: String,
}

/// Counters of one worker.
pub struct WorkerStats {
    pub pages_processed: usize,
    pub errors: usize,
    pub total_links_found: usize,
    pub processing_time_ms: u64,
}

/// What one crawl produced: page records, `(url, message)` errors, and the
/// counters of each worker by its id.
pub struct CrawlResult {
    pub pages: Vec<PageInfo>,
    pub errors: Vec<(String, String)>,
    pub worker_stats: Vec<(usize, WorkerStats)>,
}


pub open spec fn sat_add(a: int, b: int, max: int) -> int {
    if a + b > max {
        max
    } else {
        a + b
    }
}

impl WorkerStats {
    /// Counters at zero.
    pub fn new() -> (r: Self)
        ensures
            r.pages_processed == 0,
            r.errors == 0,
            r.total_links_found == 0,
            r.processing_time_ms == 0,
    {
        WorkerStats { pages_processed: 0, errors: 0, total_links_found: 0, processing_time_ms: 0 }
    }

    /// Counts a processed page with its links and time (saturating).
    pub fn record_page(&mut self, links: usize, ms: u64)
        ensures
            final(self).pages_processed == sat_add(old(self).pages_processed as int, 1, usize::MAX as int),
            final(self).errors == old(self).errors,
            final(self).total_links_found == sat_add(old(self).total_links_found as int, links as int, usize::MAX as int),
            final(self).processing_time_ms == sat_add(old(self).processing_time_ms as int, ms as int, u64::MAX as int),
    {
        self.pages_processed = self.pages_processed.saturating_add(1);
        self.total_links_found = self.total_links_found.saturating_add(links);
        self.processing_time_ms = self.processing_time_ms.saturating_add(ms);
    }

    /// Counts a failed job and its time (saturating).
    pub fn record_error(&mut self, ms: u64)
        ensures
            final(self).pages_processed == old(self).pages_processed,
            final(self).errors == sat_add(old(self).errors as int, 1, usize::MAX as int),
            final(self).total_links_found == old(self).total_links_found,
            final(self).processing_time_ms == sat_add(old(self).processing_time_ms as int, ms as int, u64::MAX as int),
    {
        self.errors = self.errors.saturating_add(1);
        self.processing_time_ms = self.processing_time_ms.saturating_add(ms);
    }
}

} // verus!
