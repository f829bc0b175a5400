//! How much of a report is shown: at most `limit` entries, a closing note,
//! and at most ten warnings.
use vstd::prelude::*;

verus! {

/// How many warnings about unreadable paths are printed before the rest
/// are only counted.
pub const MAX_WARNINGS_TO_PRINT: usize = 10;

/// The note printed after the listed entries.
#[derive(Debug, Clone, Copy, PartialEq, Eq, Structural)]
pub enum ListingNote {
    /// "No matching files or directories found."
    NoMatches,
    /// "Showing `shown` of `total` matching entries."
    ShowingOf { shown: usize, total: usize },
    /// Every entry was shown.
    Nothing,
}

/// How many of `total` entries are shown under `limit`, and the note after
/// them.
pub open spec fn listing_plan_of(total: usize, limit: usize) -> (usize, ListingNote) {
    let shown = if total < limit {
        total
    } else {
        limit
    };
    (
        shown,
        if shown == 0 {
            ListingNote::NoMatches
        } else if total > shown {
            ListingNote::ShowingOf { shown, total }
        } else {
            ListingNote::Nothing
        },
    )
}

/// How many of `issues` warnings are printed, and how many only counted.
pub open spec fn warning_plan_of(issues: usize) -> (usize, usize) {
    let printed = if issues < MAX_WARNINGS_TO_PRINT {
        issues
    } else {
        MAX_WARNINGS_TO_PRINT
    };
    (printed, (issues - printed) as usize)
}

/// At most `limit` entries are shown, as many as there are up to that;
/// the note says "no matches" exactly when nothing is shown, "showing N of
/// M" exactly when some are shown and some are not, and nothing otherwise.
pub proof fn law_listing_plan(total: usize, limit: usize)
    ensures
        ({
            let (shown, note) = listing_plan_of(total, limit);
            &&& shown <= total
            &&& shown <= limit
            &&& (shown == total || shown == limit)
            &&& (note == ListingNote::NoMatches <==> shown == 0)
            &&& (note is ShowingOf <==> 0 < shown < total)
            &&& (note matches ListingNote::ShowingOf { shown: a, total: b } ==> a == shown && b == total)
            &&& (note == ListingNote::Nothing <==> 0 < shown && shown == total)
        }),
{
}

/// At most ten warnings are printed, as many as there are up to that, and
/// the rest are counted: printed and counted add up to all of them.
pub proof fn law_warning_plan(issues: usize)
    ensures
        ({
            let (printed, more) = warning_plan_of(issues);
            &&& printed <= 10
            &&& printed <= issues
            &&& printed + more == issues
            &&& (printed == issues || printed == 10)
        }),
{
}

/// Of `total` entries, how many are shown under `limit`, and which note
/// follows them.
pub fn listing_plan(total: usize, limit: usize) -> (plan: (usize, ListingNote))
    ensures
        plan.0 == (if total < limit {
            total
        } else {
            limit
        }),
        plan.1 == (if plan.0 == 0 {
            ListingNote::NoMatches
        } else if total > plan.0 {
            ListingNote::ShowingOf { shown: plan.0, total }
        } else {
            ListingNote::Nothing
        }),
        plan == listing_plan_of(total, limit),
{
    let shown = if total < limit {
        total
    } else {
        limit
    };
    let note = if shown == 0 {
        ListingNote::NoMatches
    } else if total > shown {
        ListingNote::ShowingOf { shown, total }
    } else {
        ListingNote::Nothing
    };
    (shown, note)
}

/// Of `issues` warnings, how many are printed and how many are only
/// counted ("... and N more").
pub fn warning_plan(issues: usize) -> (plan: (usize, usize))
    ensures
        plan.0 == (if issues < MAX_WARNINGS_TO_PRINT {
            issues
        } else {
            MAX_WARNINGS_TO_PRINT
        }),
        plan.1 == issues - plan.0,
        plan == warning_plan_of(issues),
{
    let printed = if issues < MAX_WARNINGS_TO_PRINT {
        issues
    } else {
        MAX_WARNINGS_TO_PRINT
    };
    (printed, issues - printed)
}

} // verus!
