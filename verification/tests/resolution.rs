use quarterpastmarch::assignment::{
    assign_shortcut_to_date, default_offsets, ShortcutAssignment,
};
use quarterpastmarch::calendar::CalendarDate;
use quarterpastmarch::error::ConfigurationError;
use quarterpastmarch::partition::{
    assignments_of_year, date_range, find_closest_shortcut_in_each_year,
};
use quarterpastmarch::plan::plan_site;
use quarterpastmarch::resolver::{find_closest_index, find_closest_shortcut, ClosestMapping};
use quarterpastmarch::sorting::sort_by_date;

fn date(year: i32, month: u32, day: u32) -> CalendarDate {
    CalendarDate::new(year, month, day).unwrap()
}

fn table(entries: &[((i32, u32, u32), &str)]) -> Vec<ShortcutAssignment> {
    entries.iter().map(|((y, m, d), l)| ShortcutAssignment::new(date(*y, *m, *d), l)).collect()
}

fn sorted_2020() -> Vec<ShortcutAssignment> {
    sort_by_date(assign_shortcut_to_date(2020, 1, &default_offsets()))
}

#[test]
fn a_day_that_has_an_assignment_resolves_to_it() {
    let list = table(&[((2020, 3, 1), "a"), ((2020, 5, 1), "b"), ((2020, 9, 1), "c")]);
    assert_eq!(find_closest_index(&list, &date(2020, 3, 1)), 0);
    assert_eq!(find_closest_index(&list, &date(2020, 5, 1)), 1);
    assert_eq!(find_closest_index(&list, &date(2020, 9, 1)), 2);
}

#[test]
fn a_day_between_assignments_resolves_to_the_next_one() {
    let list = table(&[((2020, 3, 1), "a"), ((2020, 5, 1), "b"), ((2020, 9, 1), "c")]);
    assert_eq!(find_closest_index(&list, &date(2020, 1, 1)), 0);
    assert_eq!(find_closest_index(&list, &date(2020, 3, 2)), 1);
    assert_eq!(find_closest_index(&list, &date(2020, 4, 30)), 1);
    assert_eq!(find_closest_index(&list, &date(2020, 5, 2)), 2);
    assert_eq!(find_closest_index(&list, &date(2020, 8, 31)), 2);
}

#[test]
fn a_day_after_all_assignments_resolves_to_the_last_one() {
    let list = table(&[((2020, 3, 1), "a"), ((2020, 5, 1), "b"), ((2020, 9, 1), "c")]);
    assert_eq!(find_closest_index(&list, &date(2020, 9, 2)), 2);
    assert_eq!(find_closest_index(&list, &date(2020, 12, 31)), 2);
    assert_eq!(find_closest_index(&list, &date(2031, 1, 1)), 2);
}

#[test]
fn a_single_assignment_serves_every_day() {
    let list = table(&[((2020, 6, 15), "only")]);
    assert_eq!(find_closest_index(&list, &date(2020, 1, 1)), 0);
    assert_eq!(find_closest_index(&list, &date(2020, 6, 15)), 0);
    assert_eq!(find_closest_index(&list, &date(2020, 12, 31)), 0);
}

#[test]
fn of_several_assignments_of_one_day_the_first_is_taken() {
    let list = table(&[
        ((2020, 3, 1), "a"),
        ((2020, 5, 1), "b1"),
        ((2020, 5, 1), "b2"),
        ((2020, 5, 1), "b3"),
        ((2020, 9, 1), "c"),
    ]);
    assert_eq!(find_closest_index(&list, &date(2020, 5, 1)), 1);
    assert_eq!(find_closest_index(&list, &date(2020, 4, 1)), 1);
    assert_eq!(find_closest_index(&list, &date(2020, 5, 2)), 4);
}

#[test]
fn the_first_of_january_2020_resolves_to_quarter_past_january() {
    let list = sorted_2020();
    let place = find_closest_index(&list, &date(2020, 1, 1));
    assert_eq!(list[place].date, date(2020, 4, 23));
    assert_eq!(list[place].label, "quarter past January");
}

#[test]
fn resolution_looks_forward_not_to_the_nearer_day() {
    let list = sorted_2020();
    // One day after quarter past January: the next assignment is three
    // weeks away, the one before a single day.
    let place = find_closest_index(&list, &date(2020, 4, 24));
    assert_eq!(list[place].date, date(2020, 5, 15));
    assert_eq!(list[place].label, "quarter past February");
    let place = find_closest_index(&list, &date(2020, 12, 16));
    assert_eq!(list[place].label, "half past November");
    let place = find_closest_index(&list, &date(2020, 8, 15));
    assert_eq!(list[place].label, "half past March");
}

#[test]
fn find_closest_shortcut_adds_one_mapping_per_date() {
    let list = sorted_2020();
    let dates = vec![date(2020, 1, 1), date(2020, 4, 23), date(2020, 4, 24), date(2020, 12, 31)];
    let mut out = vec![ClosestMapping {
        query_date: date(2019, 1, 1),
        assignment: ShortcutAssignment::new(date(2019, 1, 1), "kept"),
    }];
    find_closest_shortcut(&list, &dates, &mut out);
    assert_eq!(out.len(), 5);
    assert_eq!(out[0].assignment.label, "kept");
    let labels: Vec<&str> = out[1..].iter().map(|m| m.assignment.label.as_str()).collect();
    assert_eq!(
        labels,
        vec![
            "quarter past January",
            "quarter past January",
            "quarter past February",
            "half past November"
        ]
    );
    for (mapping, day) in out[1..].iter().zip(dates.iter()) {
        assert_eq!(mapping.query_date, *day);
    }
    find_closest_shortcut(&list, &Vec::new(), &mut out);
    assert_eq!(out.len(), 5);
}

#[test]
fn date_range_holds_every_day_once() {
    let range = date_range(date(2020, 2, 27), date(2020, 3, 2));
    assert_eq!(
        range,
        vec![
            date(2020, 2, 27),
            date(2020, 2, 28),
            date(2020, 2, 29),
            date(2020, 3, 1),
            date(2020, 3, 2)
        ]
    );
    assert_eq!(date_range(date(2020, 1, 1), date(2020, 1, 1)), vec![date(2020, 1, 1)]);
    assert_eq!(date_range(date(2020, 1, 2), date(2020, 1, 1)), Vec::new());
    assert_eq!(date_range(date(2020, 1, 1), date(2029, 12, 31)).len(), 3653);
}

#[test]
fn date_range_reaches_the_last_day_of_the_calendar() {
    let last = date(quarterpastmarch::calendar::MAX_YEAR, 12, 31);
    let range = date_range(last.plus_days(-2).unwrap(), last);
    assert_eq!(range.len(), 3);
    assert_eq!(range[2], last);
}

#[test]
fn assignments_of_year_keeps_one_year_in_order() {
    let list = sort_by_date(assign_shortcut_to_date(2020, 3, &default_offsets()));
    let kept = assignments_of_year(&list, 2021);
    assert_eq!(kept.len(), 22);
    assert_eq!(kept[0].date, date(2021, 4, 24));
    assert_eq!(kept[7].label, "half past March");
    assert_eq!(kept[8].label, "quarter past June");
    assert_eq!(kept[21].date, date(2021, 12, 15));
    assert_eq!(assignments_of_year(&list, 2023).len(), 0);
    assert_eq!(assignments_of_year(&list, 2019).len(), 0);
}

#[test]
fn each_day_resolves_within_its_own_year() {
    let list = sort_by_date(assign_shortcut_to_date(2020, 3, &default_offsets()));
    let mappings =
        find_closest_shortcut_in_each_year(&list, date(2020, 1, 1), date(2022, 12, 31)).unwrap();
    assert_eq!(mappings.len(), 366 + 365 + 365);
    let mut expected = date(2020, 1, 1);
    for mapping in &mappings {
        assert_eq!(mapping.query_date, expected);
        assert_eq!(mapping.assignment.date.year(), mapping.query_date.year());
        expected = expected.plus_days(1).unwrap();
    }
    // After the last assignment of 2020 the days stay with it, and do not
    // move on to the first of 2021.
    let new_years_eve = &mappings[365];
    assert_eq!(new_years_eve.query_date, date(2020, 12, 31));
    assert_eq!(new_years_eve.assignment.date, date(2020, 12, 15));
    assert_eq!(new_years_eve.assignment.label, "half past November");
    let new_year = &mappings[366];
    assert_eq!(new_year.query_date, date(2021, 1, 1));
    assert_eq!(new_year.assignment.date, date(2021, 4, 24));
    assert_eq!(new_year.assignment.label, "quarter past January");
}

#[test]
fn a_part_of_a_year_can_be_resolved() {
    let list = sorted_2020();
    let mappings =
        find_closest_shortcut_in_each_year(&list, date(2020, 4, 22), date(2020, 4, 25)).unwrap();
    let dates: Vec<CalendarDate> = mappings.iter().map(|m| m.assignment.date).collect();
    assert_eq!(
        dates,
        vec![date(2020, 4, 23), date(2020, 4, 23), date(2020, 5, 15), date(2020, 5, 15)]
    );
    let none =
        find_closest_shortcut_in_each_year(&list, date(2020, 4, 25), date(2020, 4, 22)).unwrap();
    assert_eq!(none.len(), 0);
}

#[test]
fn a_year_without_assignments_fails_the_resolution() {
    let list = sorted_2020();
    let outcome = find_closest_shortcut_in_each_year(&list, date(2020, 1, 1), date(2021, 1, 1));
    assert_eq!(outcome.unwrap_err(), ConfigurationError::NoAssignmentsInYear { year: 2021 });
    let outcome = find_closest_shortcut_in_each_year(&list, date(2018, 6, 1), date(2022, 1, 1));
    assert_eq!(outcome.unwrap_err(), ConfigurationError::NoAssignmentsInYear { year: 2018 });
    let outcome =
        find_closest_shortcut_in_each_year(&Vec::new(), date(2020, 1, 1), date(2020, 1, 1));
    assert_eq!(outcome.unwrap_err(), ConfigurationError::NoAssignmentsInYear { year: 2020 });
}

#[test]
fn plan_site_resolves_every_day_of_its_years() {
    let plan = plan_site(2020, 10, &default_offsets()).unwrap();
    assert_eq!(plan.assignments.len(), 220);
    assert_eq!(plan.mappings.len(), 3653);
    assert_eq!(plan.mappings[0].query_date, date(2020, 1, 1));
    assert_eq!(plan.mappings[0].assignment.label, "quarter past January");
    assert_eq!(plan.mappings[0].assignment.date, date(2020, 4, 23));
    assert_eq!(plan.mappings[3652].query_date, date(2029, 12, 31));
    assert_eq!(plan.mappings[3652].assignment.date, date(2029, 12, 15));
    for mapping in &plan.mappings {
        assert_eq!(mapping.assignment.date.year(), mapping.query_date.year());
    }
    for pair in plan.assignments.windows(2) {
        assert!(!pair[1].date.is_before(&pair[0].date));
    }
}

#[test]
fn plan_site_of_one_year() {
    let plan = plan_site(2021, 1, &default_offsets()).unwrap();
    assert_eq!(plan.assignments.len(), 22);
    assert_eq!(plan.mappings.len(), 365);
    assert_eq!(plan.mappings[364].query_date, date(2021, 12, 31));
}

#[test]
fn plan_site_without_offsets_fails() {
    let outcome = plan_site(2020, 10, &Vec::new());
    assert_eq!(outcome.unwrap_err(), ConfigurationError::EmptyOffsets);
}

#[test]
fn planning_twice_gives_the_same_plan() {
    let first = plan_site(2020, 2, &default_offsets()).unwrap();
    let second = plan_site(2020, 2, &default_offsets()).unwrap();
    assert_eq!(first.mappings.len(), second.mappings.len());
    for (a, b) in first.mappings.iter().zip(second.mappings.iter()) {
        assert_eq!(a.query_date, b.query_date);
        assert_eq!(a.assignment.date, b.assignment.date);
        assert_eq!(a.assignment.label, b.assignment.label);
    }
}
