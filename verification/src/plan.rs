//! From a configuration to the resolved days of a site: the assignments of
//! the years asked for, sorted, and every day of those years resolved.

use crate::assignment::{
    assign_shortcut_to_date, is_assignment_list, is_shortcut_of, slot, Offset, ShortcutAssignment,
};
use crate::calendar::{lemma_day_number_orders, CalendarDate, MAX_YEAR, MIN_YEAR};
use crate::error::ConfigurationError;
use crate::partition::{
    find_closest_shortcut_in_each_year, in_year, is_first_unserved, is_resolution,
};
use crate::resolver::ClosestMapping;
use crate::sorting::{is_stable_sort_of, sort_by_date};
use vstd::prelude::*;

verus! {

/// The sorted assignments of a configuration and the days resolved against
/// them.
#[derive(Debug)]
pub struct SitePlan {
    pub assignments: Vec<ShortcutAssignment>,
    pub mappings: Vec<ClosestMapping>,
}

/// Whether `table` is the sorted list of the shortcuts of `num_years` years
/// from `start_year` under `offsets`.
pub open spec fn is_assignment_table(
    table: Seq<ShortcutAssignment>,
    start_year: int,
    num_years: int,
    offsets: Seq<Offset>,
) -> bool {
    exists|list: Seq<ShortcutAssignment>| #[trigger]
        is_stable_sort_of(table, list) && is_assignment_list(list, start_year, num_years, offsets)
}

/// Whether `plan` holds the sorted assignments of the configuration and
/// resolves every day from the first of January of `start_year` to the last
/// of December of the last year.
pub open spec fn is_site_plan(
    plan: SitePlan,
    start_year: i32,
    num_years: i32,
    offsets: Seq<Offset>,
) -> bool {
    &&& is_assignment_table(plan.assignments@, start_year as int, num_years as int, offsets)
    &&& is_resolution(
        plan.mappings@,
        CalendarDate { year: start_year, month: 1, day: 1 },
        CalendarDate { year: (start_year + num_years - 1) as i32, month: 12, day: 31 },
        plan.assignments@,
    )
}

/// In each of its years an assignment list has an entry, if there is an
/// offset at all.
pub proof fn lemma_every_year_is_served(
    list: Seq<ShortcutAssignment>,
    start_year: int,
    num_years: int,
    offsets: Seq<Offset>,
    year: int,
)
    requires
        is_assignment_list(list, start_year, num_years, offsets),
        offsets.len() > 0,
        start_year <= year < start_year + num_years,
    ensures
        exists|i: int| 0 <= i < list.len() && (#[trigger] list[i]).date.year == year,
{
    let count = offsets.len() as int;
    let months = 11 * (year - start_year);
    let i = slot(months, 0, count);
    assert(0 <= i < list.len()) by (nonlinear_arith)
        requires
            i == months * count + 0,
            months == 11 * (year - start_year),
            start_year <= year < start_year + num_years,
            count > 0,
            list.len() == num_years * 11 * count,
    ;
    assert(is_shortcut_of(
        list[slot(months, 0, count)],
        start_year + months / 11,
        months % 11 + 1,
        offsets[0],
    ));
    assert(list[i].date.year == year);
}

/// What a sorted list holds is what the list it was sorted from holds.
pub proof fn lemma_sorted_holds_the_same(
    table: Seq<ShortcutAssignment>,
    list: Seq<ShortcutAssignment>,
    entry: ShortcutAssignment,
)
    requires
        is_stable_sort_of(table, list),
    ensures
        table.contains(entry) <==> list.contains(entry),
        table.len() == list.len(),
{
    table.to_multiset_ensures();
    list.to_multiset_ensures();
    assert(table.contains(entry) <==> table.to_multiset().count(entry) > 0);
    assert(list.contains(entry) <==> list.to_multiset().count(entry) > 0);
}

/// The sorted assignments of `num_years` years from `start_year` under
/// `offsets`, and every day of those years resolved against the assignments
/// of its year. Fails when there is no offset.
pub fn plan_site(start_year: i32, num_years: i32, offsets: &Vec<Offset>) -> (outcome: Result<
    SitePlan,
    ConfigurationError,
>)
    requires
        num_years >= 1,
        MIN_YEAR <= start_year,
        start_year + num_years - 1 <= MAX_YEAR,
        forall|j: int| 0 <= j < offsets.len() ==> (#[trigger] offsets[j]).wf(),
    ensures
        outcome is Err <==> offsets.len() == 0,
        outcome matches Err(error) ==> error == ConfigurationError::EmptyOffsets,
        outcome matches Ok(plan) ==> is_site_plan(plan, start_year, num_years, offsets@),
        outcome matches Ok(plan) ==> forall|i: int|
            0 <= i < plan.mappings@.len() ==> (#[trigger] plan.mappings@[i]).assignment.date.year
                == plan.mappings@[i].query_date.year,
{
    if offsets.len() == 0 {
        return Err(ConfigurationError::EmptyOffsets);
    }
    let list = assign_shortcut_to_date(start_year, num_years, offsets);
    let ghost unsorted = list@;
    let assignments = sort_by_date(list);
    let start_date = CalendarDate::new(start_year, 1, 1);
    let max_date = CalendarDate::last_day_of_year(start_year + (num_years - 1));
    assert(start_date is Some && max_date is Some);
    let start_date = start_date.unwrap();
    let max_date = max_date.unwrap();
    match find_closest_shortcut_in_each_year(&assignments, start_date, max_date) {
        Ok(mappings) => Ok(SitePlan { assignments, mappings }),
        Err(error) => {
            proof {
                let date = choose|date: CalendarDate| #[trigger]
                    is_first_unserved(date, start_date, max_date, assignments@);
                let year = date.year as int;
                lemma_day_number_orders(
                    date.year as int,
                    date.month as int,
                    date.day as int,
                    start_year as int,
                    1,
                    1,
                );
                lemma_day_number_orders(
                    date.year as int,
                    date.month as int,
                    date.day as int,
                    start_year + num_years - 1,
                    12,
                    31,
                );
                lemma_every_year_is_served(
                    unsorted,
                    start_year as int,
                    num_years as int,
                    offsets@,
                    year,
                );
                let at = choose|at: int|
                    0 <= at < unsorted.len() && (#[trigger] unsorted[at]).date.year == year;
                lemma_sorted_holds_the_same(assignments@, unsorted, unsorted[at]);
                let place = choose|place: int|
                    0 <= place < assignments@.len() && assignments@[place] == unsorted[at];
                let pred = |a: ShortcutAssignment| a.date.year == year;
                assignments@.lemma_filter_contains(pred, place);
                assert(in_year(assignments@, year).len() > 0);
                assert(false);
            }
            Err(error)
        },
    }
}

} // verus!
