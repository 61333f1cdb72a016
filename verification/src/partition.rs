//! Resolving every day of a span of days, year by year: each day against
//! the assignments of its own year only.

use crate::assignment::ShortcutAssignment;
use crate::calendar::{lemma_day_number_in_range, lemma_day_number_names_one_date, CalendarDate};
use crate::error::ConfigurationError;
use crate::resolver::{
    closest_position, find_closest_shortcut, is_resolved, lemma_entries_before, ClosestMapping,
};
use crate::sorting::sorted_by_date;
use itertools::Itertools;
use vstd::prelude::*;

verus! {

/// Whether `range` holds every day from `start` to `max`, both included, in
/// order; no day at all when `max` lies before `start`.
pub open spec fn is_date_range(
    range: Seq<CalendarDate>,
    start: CalendarDate,
    max: CalendarDate,
) -> bool {
    &&& range.len() == (if start.day_number() <= max.day_number() {
        max.day_number() - start.day_number() + 1
    } else {
        0
    })
    &&& forall|i: int|
        0 <= i < range.len() ==> (#[trigger] range[i]).wf() && range[i].day_number()
            == start.day_number() + i
}

/// Every day from `start_date` to `max_date`, both included, in order.
pub fn date_range(start_date: CalendarDate, max_date: CalendarDate) -> (range: Vec<CalendarDate>)
    requires
        start_date.wf(),
        max_date.wf(),
    ensures
        is_date_range(range@, start_date, max_date),
{
    let mut range: Vec<CalendarDate> = Vec::new();
    let mut current_date = start_date;
    while !max_date.is_before(&current_date)
        invariant_except_break
            current_date.wf(),
            current_date.day_number() == start_date.day_number() + range.len(),
            range.len() == 0 || current_date.day_number() <= max_date.day_number() + 1,
        invariant
            start_date.wf(),
            max_date.wf(),
            forall|i: int|
                0 <= i < range.len() ==> (#[trigger] range[i]).wf() && range[i].day_number()
                    == start_date.day_number() + i,
        ensures
            is_date_range(range@, start_date, max_date),
        decreases max_date.day_number() - current_date.day_number() + 1,
    {
        range.push(current_date);
        match current_date.plus_days(1) {
            Some(next) => {
                current_date = next;
            },
            None => {
                proof {
                    lemma_day_number_in_range(max_date);
                    lemma_day_number_in_range(current_date);
                }
                break ;
            },
        }
    }
    range
}

/// Consecutive days of one year.
#[derive(Debug)]
pub struct YearRun {
    pub year: i32,
    pub dates: Vec<CalendarDate>,
}

/// The days of all `runs`, one run after the other.
pub open spec fn joined(runs: Seq<YearRun>) -> Seq<CalendarDate>
    decreases runs.len(),
{
    if runs.len() == 0 {
        Seq::empty()
    } else {
        joined(runs.drop_last()) + runs.last().dates@
    }
}

/// Whether `runs` cuts `dates` into its runs of days of the same year:
/// every run holds at least one day, all of its own year, neighbouring runs
/// are of different years, and together the runs are `dates`.
pub open spec fn is_year_runs(runs: Seq<YearRun>, dates: Seq<CalendarDate>) -> bool {
    &&& joined(runs) == dates
    &&& forall|r: int| 0 <= r < runs.len() ==> (#[trigger] runs[r]).dates@.len() > 0
    &&& forall|r: int, i: int|
        0 <= r < runs.len() && 0 <= i < runs[r].dates@.len() ==> (#[trigger] runs[r].dates@[i]).year
            == runs[r].year
    &&& forall|r: int| 0 <= r < runs.len() - 1 ==> (#[trigger] runs[r]).year != runs[r + 1].year
}

/// `itertools::Itertools::group_by` with the year as key, each group
/// collected: consecutive days of the same year form one run, in the order
/// of the days, and nothing else is in a run.
#[verifier::external_body]
fn group_by_year(dates: Vec<CalendarDate>) -> (runs: Vec<YearRun>)
    ensures
        is_year_runs(runs@, dates@),
{
    dates.into_iter().group_by(|d| d.year).into_iter().map(
        |(year, run)| YearRun { year, dates: run.collect() },
    ).collect()
}

/// The entries of `list` that fall in `year`, in their order.
pub open spec fn in_year(list: Seq<ShortcutAssignment>, year: int) -> Seq<ShortcutAssignment> {
    list.filter(|a: ShortcutAssignment| a.date.year == year)
}

/// The assignments that fall in `year`, in their order.
pub fn assignments_of_year(assignments: &Vec<ShortcutAssignment>, year: i32) -> (kept: Vec<
    ShortcutAssignment,
>)
    ensures
        kept@ == in_year(assignments@, year as int),
        sorted_by_date(assignments@) ==> sorted_by_date(kept@),
        forall|i: int| 0 <= i < kept.len() ==> (#[trigger] kept[i]).date.year == year,
        (forall|i: int| 0 <= i < assignments.len() ==> (#[trigger] assignments[i]).date.wf())
            ==> (forall|i: int| 0 <= i < kept.len() ==> (#[trigger] kept[i]).date.wf()),
{
    let mut kept: Vec<ShortcutAssignment> = Vec::new();
    let ghost pred = |a: ShortcutAssignment| a.date.year == year as int;
    let mut next: usize = 0;
    proof {
        reveal(Seq::filter);
        assert(assignments@.take(0) =~= Seq::<ShortcutAssignment>::empty());
    }
    while next < assignments.len()
        invariant
            0 <= next <= assignments.len(),
            pred == |a: ShortcutAssignment| a.date.year == year as int,
            kept@ == assignments@.take(next as int).filter(pred),
            forall|i: int| 0 <= i < kept.len() ==> (#[trigger] kept[i]).date.year == year,
            sorted_by_date(assignments@) ==> sorted_by_date(kept@),
            sorted_by_date(assignments@) ==> forall|i: int, j: int|
                0 <= i < kept.len() && next <= j < assignments.len() ==> (
                #[trigger] kept[i]).date.day_number() <= (
                #[trigger] assignments[j]).date.day_number(),
            (forall|i: int| 0 <= i < assignments.len() ==> (#[trigger] assignments[i]).date.wf())
                ==> (forall|i: int| 0 <= i < kept.len() ==> (#[trigger] kept[i]).date.wf()),
        decreases assignments.len() - next,
    {
        proof {
            reveal(Seq::filter);
            assert(assignments@.take(next + 1).drop_last() =~= assignments@.take(next as int));
        }
        if assignments[next].date.year() == year {
            let ghost before = kept@;
            kept.push(assignments[next].clone());
            proof {
                if sorted_by_date(assignments@) {
                    assert forall|i: int, j: int| 0 <= i <= j < kept@.len() implies (
                    #[trigger] kept@[i]).date.day_number() <= (
                    #[trigger] kept@[j]).date.day_number() by {
                        if j < before.len() {
                            assert(kept@[i] == before[i] && kept@[j] == before[j]);
                        } else if i < before.len() {
                            assert(kept@[i] == before[i]);
                        }
                    }
                    assert forall|i: int, j: int|
                        0 <= i < kept.len() && next + 1 <= j < assignments.len() implies (
                    #[trigger] kept[i]).date.day_number() <= (
                    #[trigger] assignments[j]).date.day_number() by {
                        if i < before.len() {
                            assert(kept@[i] == before[i]);
                        } else {
                            assert(assignments@[next as int].date.day_number()
                                <= assignments@[j].date.day_number());
                        }
                    }
                }
            }
        }
        next = next + 1;
    }
    proof {
        assert(assignments@.take(next as int) =~= assignments@);
    }
    kept
}

/// Whether `mapping` pairs `date` with the assignment that the date
/// resolves to among those of its own year.
pub open spec fn is_resolved_in_year(
    mapping: ClosestMapping,
    date: CalendarDate,
    assignments: Seq<ShortcutAssignment>,
) -> bool {
    let of_year = in_year(assignments, date.year as int);
    &&& mapping.query_date == date
    &&& of_year.len() > 0
    &&& mapping.assignment == of_year[closest_position(of_year, date.day_number())]
}

/// Whether `mappings` resolves every day from `start` to `max`, in order,
/// each against the assignments of its own year.
pub open spec fn is_resolution(
    mappings: Seq<ClosestMapping>,
    start: CalendarDate,
    max: CalendarDate,
    assignments: Seq<ShortcutAssignment>,
) -> bool {
    &&& mappings.len() == (if start.day_number() <= max.day_number() {
        max.day_number() - start.day_number() + 1
    } else {
        0
    })
    &&& forall|i: int|
        0 <= i < mappings.len() ==> {
            &&& (#[trigger] mappings[i]).query_date.wf()
            &&& mappings[i].query_date.day_number() == start.day_number() + i
            &&& is_resolved_in_year(mappings[i], mappings[i].query_date, assignments)
        }
}

/// Whether `date` is the first day from `start` to `max` in whose year no
/// assignment falls.
pub open spec fn is_first_unserved(
    date: CalendarDate,
    start: CalendarDate,
    max: CalendarDate,
    assignments: Seq<ShortcutAssignment>,
) -> bool {
    &&& date.wf()
    &&& start.day_number() <= date.day_number() <= max.day_number()
    &&& in_year(assignments, date.year as int).len() == 0
    &&& forall|earlier: CalendarDate|
        earlier.wf() && start.day_number() <= earlier.day_number() < date.day_number()
            ==> #[trigger] in_year(assignments, earlier.year as int).len() > 0
}

/// The days of the first runs are the first days of all runs.
pub proof fn lemma_joined_take(runs: Seq<YearRun>, count: int)
    requires
        0 <= count <= runs.len(),
    ensures
        joined(runs.take(count)).len() <= joined(runs).len(),
        joined(runs.take(count)) == joined(runs).take(joined(runs.take(count)).len() as int),
        count < runs.len() ==> joined(runs.take(count + 1)) == joined(runs.take(count))
            + runs[count].dates@,
    decreases runs.len() - count,
{
    if count == runs.len() {
        assert(runs.take(count) =~= runs);
        assert(joined(runs).take(joined(runs).len() as int) =~= joined(runs));
    } else {
        let shorter = joined(runs.take(count));
        let longer = joined(runs.take(count + 1));
        assert(runs.take(count + 1).drop_last() =~= runs.take(count));
        assert(longer == shorter + runs[count].dates@);
        lemma_joined_take(runs, count + 1);
        assert(shorter =~= joined(runs).take(shorter.len() as int)) by {
            assert(longer == joined(runs).take(longer.len() as int));
            assert forall|i: int| 0 <= i < shorter.len() implies shorter[i] == joined(runs)[i] by {
                assert(longer[i] == shorter[i]);
                assert(longer[i] == joined(runs).take(longer.len() as int)[i]);
            }
        }
    }
}

/// A day's assignment falls in the day's own year.
pub proof fn lemma_resolution_stays_in_year(
    mapping: ClosestMapping,
    assignments: Seq<ShortcutAssignment>,
)
    requires
        is_resolved_in_year(mapping, mapping.query_date, assignments),
    ensures
        mapping.assignment.date.year == mapping.query_date.year,
        assignments.contains(mapping.assignment),
{
    let year = mapping.query_date.year as int;
    let pred = |a: ShortcutAssignment| a.date.year == year;
    let of_year = in_year(assignments, year);
    let place = closest_position(of_year, mapping.query_date.day_number());
    lemma_entries_before(of_year, mapping.query_date.day_number());
    assignments.lemma_filter_pred(pred, place);
    assignments.lemma_filter_contains_rev(pred, of_year[place]);
}

/// Resolves every day from `start_date` to `max_date`, in order, against
/// the assignments of its own year; fails with the year of the first day in
/// whose year no assignment falls.
pub fn find_closest_shortcut_in_each_year(
    assignments: &Vec<ShortcutAssignment>,
    start_date: CalendarDate,
    max_date: CalendarDate,
) -> (outcome: Result<Vec<ClosestMapping>, ConfigurationError>)
    requires
        sorted_by_date(assignments@),
        forall|i: int| 0 <= i < assignments.len() ==> (#[trigger] assignments[i]).date.wf(),
        start_date.wf(),
        max_date.wf(),
    ensures
        outcome matches Ok(mappings) ==> is_resolution(
            mappings@,
            start_date,
            max_date,
            assignments@,
        ),
        outcome matches Ok(mappings) ==> forall|i: int|
            0 <= i < mappings@.len() ==> (#[trigger] mappings@[i]).assignment.date.year
                == mappings@[i].query_date.year,
        outcome matches Err(error) ==> exists|date: CalendarDate|
            #[trigger] is_first_unserved(date, start_date, max_date, assignments@) && error
                == (ConfigurationError::NoAssignmentsInYear { year: date.year }),
{
    let mut closest_shortcut_for_dates: Vec<ClosestMapping> = Vec::new();
    let dates = date_range(start_date, max_date);
    let ghost days = dates@;
    let runs = group_by_year(dates);
    let mut next: usize = 0;
    proof {
        assert(runs@.take(0) =~= Seq::<YearRun>::empty());
    }
    while next < runs.len()
        invariant
            0 <= next <= runs.len(),
            sorted_by_date(assignments@),
            forall|i: int| 0 <= i < assignments.len() ==> (#[trigger] assignments[i]).date.wf(),
            is_date_range(days, start_date, max_date),
            is_year_runs(runs@, days),
            closest_shortcut_for_dates@.len() == joined(runs@.take(next as int)).len(),
            forall|i: int|
                0 <= i < closest_shortcut_for_dates@.len() ==> is_resolved_in_year(
                    #[trigger] closest_shortcut_for_dates@[i],
                    days[i],
                    assignments@,
                ),
        decreases runs.len() - next,
    {
        let year = runs[next].year;
        let year_assignments = assignments_of_year(assignments, year);
        let ghost done = closest_shortcut_for_dates@;
        proof {
            lemma_joined_take(runs@, next as int);
            lemma_joined_take(runs@, next + 1);
        }
        if year_assignments.len() == 0 {
            proof {
                let first = runs@[next as int].dates@[0];
                assert(first == days[done.len() as int]) by {
                    assert(joined(runs@.take(next + 1))[done.len() as int] == first);
                }
                assert forall|earlier: CalendarDate|
                    earlier.wf() && start_date.day_number() <= earlier.day_number()
                        < first.day_number() implies #[trigger] in_year(
                    assignments@,
                    earlier.year as int,
                ).len() > 0 by {
                    let at = earlier.day_number() - start_date.day_number();
                    lemma_day_number_names_one_date(earlier, days[at]);
                    assert(is_resolved_in_year(done[at], days[at], assignments@));
                }
                assert(is_first_unserved(first, start_date, max_date, assignments@));
            }
            return Err(ConfigurationError::NoAssignmentsInYear { year });
        }
        assert forall|i: int| 0 <= i < runs[next as int].dates.len() implies (
        #[trigger] runs[next as int].dates[i]).wf() by {
            assert(joined(runs@.take(next + 1))[done.len() + i] == runs[next as int].dates[i]);
            assert(days[done.len() + i].wf());
        }
        find_closest_shortcut(
            &year_assignments,
            &runs[next].dates,
            &mut closest_shortcut_for_dates,
        );
        proof {
            assert forall|i: int|
                0 <= i < closest_shortcut_for_dates@.len() implies is_resolved_in_year(
                #[trigger] closest_shortcut_for_dates@[i],
                days[i],
                assignments@,
            ) by {
                if i < done.len() {
                    assert(closest_shortcut_for_dates@.take(done.len() as int)[i] == done[i]);
                } else {
                    let within = i - done.len();
                    let date = runs@[next as int].dates@[within];
                    assert(joined(runs@.take(next + 1))[i] == date);
                    assert(joined(runs@).take(
                        joined(runs@.take(next + 1)).len() as int,
                    )[i] == days[i]);
                    assert(days[i] == date);
                    assert(date.year == year);
                    assert(is_resolved(
                        closest_shortcut_for_dates@[done.len() + within],
                        date,
                        year_assignments@,
                    ));
                }
            }
        }
        next = next + 1;
    }
    proof {
        assert(runs@.take(next as int) =~= runs@);
        assert forall|i: int| 0 <= i < closest_shortcut_for_dates@.len() implies (
        #[trigger] closest_shortcut_for_dates@[i]).assignment.date.year
            == closest_shortcut_for_dates@[i].query_date.year by {
            lemma_resolution_stays_in_year(closest_shortcut_for_dates@[i], assignments@);
        }
    }
    Ok(closest_shortcut_for_dates)
}

} // verus!
