use vstd::prelude::*;
use crate::record::Record;
use crate::filter::{filter_month, spec_filter_month};
use crate::aggregate::{
    duration_pairs, duration_report, total_duration, viewer_counts, viewer_pairs,
};
use crate::buckets::{bucket_pairs, load_windows};
use crate::duration::spec_render_duration;
use crate::sort::sort_desc;

verus! {

/// Which of the three summaries to produce. The choice is closed: there is no
/// fourth report, so no caller needs an impossible-state branch.
#[derive(Clone, Copy, PartialEq, Eq, Structural)]
pub enum ReportKind {
    DurationSum,
    UniqueViewers,
    LoadBuckets,
}

/// A finished report, one variant per kind: rows are already sorted with the
/// largest value first, and duration totals are already rendered.
pub enum Report {
    Durations(Vec<(String, String)>),
    ViewerCounts(Vec<(String, u64)>),
    LoadWindows(Vec<(u64, u64)>),
}

/// Filters the log to calendar month `month` and reduces it with the chosen
/// strategy. An empty month gives an empty report; nothing here can fail.
pub fn run_report(records: &Vec<Record>, month: u32, kind: ReportKind) -> (rep: Report)
    requires
        kind is DurationSum ==> total_duration(spec_filter_month(records@, month)) <= u64::MAX,
    ensures
        ({
            let picked = spec_filter_month(records@, month);
            match rep {
                Report::Durations(rows) => {
                    let totals = sort_desc(duration_pairs(picked));
                    &&& kind is DurationSum
                    &&& rows@.len() == totals.len()
                    &&& forall|k: int|
                        0 <= k < totals.len() ==> (#[trigger] rows@[k]).0 == totals[k].0
                            && rows@[k].1@ == spec_render_duration(totals[k].1 as int)
                },
                Report::ViewerCounts(rows) => {
                    &&& kind is UniqueViewers
                    &&& rows@ == sort_desc(viewer_pairs(picked))
                },
                Report::LoadWindows(rows) => {
                    let sorted = sort_desc(bucket_pairs(picked));
                    &&& kind is LoadBuckets
                    &&& rows@ == sorted.take(
                        if sorted.len() < 20 {
                            sorted.len() as int
                        } else {
                            20
                        },
                    )
                },
            }
        }),
{
    let picked = filter_month(records, month);
    match kind {
        ReportKind::DurationSum => Report::Durations(duration_report(&picked)),
        ReportKind::UniqueViewers => Report::ViewerCounts(viewer_counts(&picked)),
        ReportKind::LoadBuckets => Report::LoadWindows(load_windows(&picked)),
    }
}

} // verus!
