use vstd::prelude::*;

verus! {

/// A half-open run `[begin, end)` of page indices.
#[derive(Debug, Clone, Copy, PartialEq, Eq, Structural)]
pub struct Block {
    pub begin: usize,
    pub end: usize,
}

impl Block {
    pub fn new(begin: usize, end: usize) -> (r: Self)
        ensures
            r.begin == begin,
            r.end == end,
    {
        Block { begin, end }
    }
}

/// The residency of one measured file. The percentage of resident pages is
/// the exact ratio `cached / pages` (zero for an empty file); see
/// [`PcStatus::percent_num`] and [`PcStatus::percent_den`].
#[derive(Debug)]
pub struct PcStatus {
    /// The host path that was measured, as raw bytes.
    pub path: Vec<u8>,
    pub size: usize,
    pub pages: usize,
    pub cached: usize,
    pub uncached: usize,
    /// Seconds since the Unix epoch at which the file was measured.
    pub timestamp: u64,
    /// The file's modification time, seconds since the Unix epoch.
    pub mtime: u64,
    /// The maximal runs of resident pages, in increasing order.
    pub cached_index: Vec<Block>,
}

impl PcStatus {
    /// The counts are consistent: resident and non-resident pages make up
    /// every page, and no page is both.
    pub open spec fn wf(&self) -> bool {
        &&& self.cached + self.uncached == self.pages
        &&& self.cached <= self.pages
    }

    /// Numerator of the resident fraction.
    pub open spec fn percent_num(&self) -> int {
        self.cached as int
    }

    /// Denominator of the resident fraction: the page count, or one for an
    /// empty file (whose fraction is then zero).
    pub open spec fn percent_den(&self) -> int {
        if self.pages == 0 {
            1
        } else {
            self.pages as int
        }
    }

    pub fn new(
        path: Vec<u8>,
        size: usize,
        pages: usize,
        cached: usize,
        uncached: usize,
        timestamp: u64,
        mtime: u64,
        cached_index: Vec<Block>,
    ) -> (r: Self)
        ensures
            r.path == path,
            r.size == size,
            r.pages == pages,
            r.cached == cached,
            r.uncached == uncached,
            r.timestamp == timestamp,
            r.mtime == mtime,
            r.cached_index == cached_index,
    {
        PcStatus { path, size, pages, cached, uncached, timestamp, mtime, cached_index }
    }
}

/// The resident percentage of a consistent record lies in `[0, 100]`, and it
/// is zero for an empty file.
pub proof fn lemma_percent_bounds(s: PcStatus)
    requires
        s.wf(),
    ensures
        0 <= s.percent_num() <= s.percent_den(),
        s.percent_den() > 0,
        s.pages == 0 ==> s.percent_num() == 0,
{
}

} // verus!
