//! Integer-only records of the aggregate metrics that the static charts read.

use vstd::prelude::*;

verus! {

#[derive(Debug, Clone, Default)]
pub struct AuthorEntry {
    pub author: String,
    pub commits: u32,
}

#[derive(Debug, Clone, Default)]
pub struct DailyVelocity {
    pub date: String,
    pub count: u32,
    pub dominant_category: String,
}

#[derive(Debug, Clone, Default)]
pub struct DroughtPeriod {
    pub start_date: String,
    pub end_date: String,
    pub duration_days: u32,
}

#[derive(Debug, Clone, Default)]
pub struct HistogramBin {
    pub label: String,
    pub count: u32,
}

#[derive(Debug, Clone, Default)]
pub struct WorkDispositionSegment {
    pub category: String,
    pub merge_speed: String,
    pub lines_changed: u32,
    pub commit_count: u32,
}

#[derive(Debug, Clone, Default)]
pub struct WorkDisposition {
    pub fast_merged_lines: u32,
    pub slow_merged_lines: u32,
    pub unmerged_lines: u32,
    pub fast_merged_commits: u32,
    pub slow_merged_commits: u32,
    pub unmerged_commits: u32,
    pub segments: Vec<WorkDispositionSegment>,
}

} // verus!
